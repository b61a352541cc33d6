[package]
name = "agent_memory"
version = "0.1.0"
edition = "2021"
publish = false

[dependencies]
anyhow = "*"
colored = "*"
glob = "*"
log = "*"
rayon = "*"
