[package]
name = "rsync_http"
version = "0.1.0"
edition = "2021"
publish = false

[dependencies]
librsync = "=0.2.6"
notify = "=6.1.1"
reqwest = { version = "=0.12.28", default-features = false }
rocket = "=0.5.2"
tokio = { version = "=1.54.1", features = ["macros", "rt-multi-thread", "sync", "time"] }
walkdir = "=2.5.0"
