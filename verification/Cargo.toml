[package]
name = "commitlog"
version = "0.1.0"
edition = "2021"
publish = false

[dependencies]
bytes = "*"
fnv = "*"
sha2 = "*"

[dev-dependencies]
mqttbytes = "*"
