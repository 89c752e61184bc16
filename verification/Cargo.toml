[package]
name = "wzrd_node_graph"
version = "0.1.0"
edition = "2021"
publish = false

[dependencies]
queues = "*"
lib-ruby-parser = "*"
serde = { version = "*", features = ["derive"] }
