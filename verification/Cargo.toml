[package]
name = "moon_core"
version = "0.1.0"
edition = "2021"
publish = false

[dependencies]
petgraph = "*"
clap = { version = "*", features = ["derive", "env"] }
console = "*"
itertools = "*"
tokio = { version = "*", features = ["macros", "rt-multi-thread", "sync"] }
