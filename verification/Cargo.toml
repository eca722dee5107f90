[package]
name = "islefall"
version = "0.1.0"
edition = "2021"
publish = false

[dependencies]
bytes = "1"
futures-util = { version = "0.3", default-features = false, features = ["sink", "std"] }
gif = "=0.14.2"
pathfinding = "=4.16.0"
png = "=0.18.1"
postcard = { version = "1", features = ["use-std"] }
rand = "=0.10.3"
rand_pcg = "=0.10.2"
serde = { version = "=1.0.229", features = ["derive"] }
tokio = { version = "1", features = ["rt-multi-thread", "net", "sync", "time", "io-util"] }
tokio-util = { version = "0.7", features = ["codec"] }
toml = "=1.1.8"
