[package]
name = "rrule"
version = "0.1.0"
edition = "2021"
publish = false

[dependencies]
chrono = { version = "=0.4.45", default-features = false, features = ["std"] }
chrono-tz = { version = "=0.10.4", default-features = false, features = ["std"] }
