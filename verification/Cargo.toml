[package]
name = "ruststream-sea-file"
version = "0.7.0"
edition = "2021"
publish = false

[dependencies]
base64 = "=0.22.1"
bytes = "=1.12.1"
futures = "=0.3.34"
ruststream = { version = "=0.7.7", features = ["asyncapi", "testing"] }
sea-streamer-file = { version = "=0.5.2", features = ["runtime-tokio"] }
sea-streamer-stdio = { version = "=0.5.0", features = ["runtime-tokio"] }
sea-streamer-types = "=0.5.2"
serde = { version = "1", features = ["derive"] }
thiserror = "=2.0.21"
tokio = { version = "=1.54.1", features = ["rt", "rt-multi-thread", "macros", "sync", "time"] }
