[package]
name = "statstore"
version = "0.1.0"
edition = "2021"
publish = false

[dependencies]
rand = "=0.10.3"
clap = "=4.6.7"
tokio = { version = "=1.53.2", features = ["macros", "rt-multi-thread"] }
warp = { version = "=0.4.3", features = ["server"] }
bytes = "=1.12.1"
