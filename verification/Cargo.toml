[package]
name = "cedar_analysis"
version = "0.1.0"
edition = "2021"
publish = false

[dependencies]
async-recursion = "*"
clap = { version = "4", features = ["derive", "env"] }
linked-hash-map = "0.5"
miette = { version = "7", features = ["fancy"] }
nonempty-collections = "*"
ref-cast = "1"
serde = { version = "1", features = ["derive"] }
serde_json = "1"
smol_str = "0.3"
thiserror = "2"
tokio = { version = "1", features = ["rt-multi-thread", "process", "io-util", "macros"] }
