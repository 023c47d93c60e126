[package]
name = "writ"
version = "0.1.0"
edition = "2021"
publish = false

[dependencies]
regex = "=1.13.1"
ropey = "=1.6.1"
tree-sitter = "=0.27.1"
tree-sitter-md = "=0.5.4"
unicode-segmentation = "=1.13.3"
anyhow = "=1.0.104"
clap = { version = "=4.6.7", features = ["derive"] }
mermaid-rs-renderer = { version = "=0.3.1", default-features = false }
ratex-parser = "=0.1.15"
ratex-layout = "=0.1.15"
ratex-render = { version = "=0.1.15", features = ["embed-fonts"] }
ratex-types = "=0.1.15"
image = { version = "=0.25.10", default-features = false, features = ["png"] }
vello = "0.9"
parley = "*"
pollster = "*"
winit = { version = "0.30", default-features = false, features = ["x11", "rwh_06"] }
