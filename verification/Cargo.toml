[package]
name = "cutflow"
version = "0.1.0"
edition = "2021"
publish = false

[dependencies]
slotmap = "1"
bimap = "0.6"
chrono = { version = "0.4", default-features = false, features = ["std"] }
internment = "0.8"
serde = { version = "1", features = ["derive"] }
thiserror = "2"
tokio = { version = "1", features = ["macros", "rt-multi-thread", "sync"] }
