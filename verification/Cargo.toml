[package]
name = "test_by_a11y"
version = "0.1.0"
edition = "2021"
publish = false

[dependencies]
atspi = { version = "=0.30.0", features = ["zbus"] }
futures = "=0.3.34"
log = "=0.4.34"
thiserror = "=2.0.21"
