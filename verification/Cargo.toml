[package]
name = "ps_mesh"
version = "0.1.0"
edition = "2021"
publish = false

[dependencies]
clap = { version = "=4.6.7", features = ["derive"] }
futures-util = "=0.3.34"
nalgebra = "=0.32.6"
rand = "=0.8.8"
rustyline = "=9.1.2"
serde_json = "=1.0.154"
tokio = { version = "=1.54.1", features = ["macros", "rt", "rt-multi-thread", "sync", "time"] }
warp = "=0.3.7"
kiss3d = "0.35"
notify = "4"
