[package]
name = "dns_filter"
version = "0.1.0"
edition = "2021"
publish = false

[dependencies]
fastmurmur3 = "*"
lazy_static = "1"
native-tls = "0.2"
tokio = { version = "1", features = ["rt-multi-thread", "net", "io-util", "macros", "time", "sync"] }
tokio-native-tls = "0.3"
