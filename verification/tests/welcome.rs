use site_mapper::greeting;

#[test]
fn test_welcome() {
    assert_eq!(greeting(), "I'm ready to start the course!");
}
