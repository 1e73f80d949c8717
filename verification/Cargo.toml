[package]
name = "discover"
version = "0.1.0"
edition = "2021"
publish = false

[dependencies]
percent-encoding = "2"
serde_json = "1"
zookeeper = "*"
tokio = { version = "1", features = ["rt", "rt-multi-thread"] }
futures = "0.3"
tower = { version = "*", features = ["discover"] }
pin-project = "1"
log = "0.4"
fxhash = "0.2"
lazy_static = "1"
