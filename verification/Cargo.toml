[package]
name = "catalog_api"
version = "0.1.0"
edition = "2021"
publish = false

[dependencies]
bigdecimal = "=0.4.11"
chrono = "=0.4.45"
diesel = { version = "=2.3.14", features = ["postgres", "chrono", "numeric"] }
rocket = { version = "0.5", features = ["json"] }
rocket_okapi = "0.9"
