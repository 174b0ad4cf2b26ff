[package]
name = "godata"
version = "0.1.0"
edition = "2021"
publish = false

[dependencies]
sled = "0.34"
serde = { version = "1", features = ["derive"] }
clap = { version = "4", features = ["derive"] }
tokio = { version = "1", features = ["rt-multi-thread", "macros", "signal", "net"] }
tokio-stream = { version = "0.1", features = ["net"] }
warp = { version = "0.3", default-features = false }
tracing = "0.1"
directories = "*"
sysinfo = "*"
uuid = { version = "1", features = ["v4"] }
