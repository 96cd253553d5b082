[package]
name = "site_mapper"
version = "0.1.0"
edition = "2021"
publish = false

[dependencies]
url = "2"
scraper = "*"
ureq = "2"
crossbeam = "0.8"
