[package]
name = "init_system"
version = "0.1.0"
edition = "2021"
publish = false

[dependencies]
uuid = { version = "1", features = ["v4"] }
godot = "*"
serde = { version = "1", features = ["derive"] }
syn = { version = "2", features = ["full"] }
quote = "1"
proc-macro2 = "1"
tracing = "0.1"
