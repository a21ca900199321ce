[package]
name = "notegraph"
version = "0.1.0"
edition = "2021"
publish = false

[dependencies]
data-encoding = "2"
rand = "0.8"
url = "2"
tokio = { version = "1", features = ["rt-multi-thread", "net", "io-util", "macros", "sync", "time"] }
tokio-postgres = { version = "0.7", features = ["with-uuid-1", "with-time-0_3"] }
deadpool-postgres = "0.14"
serde = { version = "1", features = ["derive"] }
serde_json = "1"
uuid = { version = "1", features = ["v4"] }
time = { version = "0.3", features = ["formatting", "parsing"] }
bytes = "1"
pulldown-cmark = "0.13"
