[package]
name = "social_schedule"
version = "0.1.0"
edition = "2021"
publish = false

[dependencies]
rand = "0.8"
rand_core = "0.6"
rand_xorshift = "0.3"
serde = { version = "1", features = ["derive"] }
serde_json = "1"
bincode = "1"
clap = { version = "4", features = ["derive"] }
num_cpus = "1"
num-format = "0.4"
dirs = "5"
tokio = { version = "1", features = ["full"] }
tokio-tungstenite = "0.21"
futures = "0.3"
warp = "0.3"
getrandom = "0.2"

[dev-dependencies]
quickcheck = "1"
