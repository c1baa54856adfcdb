[package]
name = "crab-remote-git"
version = "0.1.0"
edition = "2021"
publish = false

[dependencies]
blake3 = "1"
bytes = "1"
futures-util = "0.3"
gix-hash = { version = "*", features = ["sha1"] }
gix-object = { version = "*", features = ["sha1"] }
tokio = { version = "1", features = ["macros", "rt", "sync", "time"] }
tokio-util = { version = "0.7", features = ["rt"] }
tracing = "0.1"
