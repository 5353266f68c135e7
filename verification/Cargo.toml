[package]
name = "lsp_core"
version = "0.1.0"
edition = "2021"
publish = false

[dependencies]
directories = "*"
parking_lot = "*"
reqwest = { version = "*", default-features = false, features = ["json"] }
serde = { version = "*", features = ["derive"] }
serde_json = "*"
thiserror = "*"
tokio = { version = "*", features = ["rt-multi-thread", "process", "io-util", "sync", "macros", "time"] }
