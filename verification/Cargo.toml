[package]
name = "delp"
version = "1.0.0"
edition = "2021"
publish = false

[dependencies]
anyhow = "1"
bytes = "1"
clap = { version = "4", features = ["derive"] }
futures-core = "0.3"
futures-sink = "0.3"
sha2 = "0.10"
smallvec = "1"
socket2 = "0.5"
thiserror = "1"
tokio = { version = "1", features = ["macros", "net", "rt-multi-thread", "time"] }
tracing-subscriber = { version = "0.3", features = ["env-filter"] }
