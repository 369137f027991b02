[package]
name = "optizoignons"
version = "0.1.0"
edition = "2021"
publish = false

[dependencies]
petgraph = "*"
strum = { version = "*", features = ["derive"] }
thiserror = "*"
dioxus = { version = "*", default-features = false, features = ["macro", "html", "signals", "hooks", "launch", "document", "asset", "router"] }
dioxus-free-icons = { version = "*", features = ["lucide"] }
