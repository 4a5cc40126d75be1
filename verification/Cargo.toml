[package]
name = "graph"
version = "0.1.0"
edition = "2021"
publish = false

[dependencies]
ctor = "*"
jwalk = "*"
petgraph = "*"
serde = { version = "1", features = ["derive"] }
smallstr = "*"
strum = { version = "*", features = ["derive"] }
strum_macros = "*"
tokio = { version = "1", features = ["macros", "rt-multi-thread"] }
tracing = "0.1"
tracing-subscriber = "0.3"
tracing-tree = "*"
