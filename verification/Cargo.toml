[package]
name = "i3-awm"
version = "0.1.0"
edition = "2021"
publish = false

[dependencies]
i3ipc = "*"
serde = { version = "1", features = ["derive"] }
serde_json = "1"
x11rb = { version = "*", features = ["randr"] }
