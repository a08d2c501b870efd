[package]
name = "laurier"
version = "0.1.0"
edition = "2021"
publish = false

[dependencies]
console = "*"
ratatui = { version = "*", features = ["unstable-widget-ref"] }
ratatui-core = "*"
ratatui-crossterm = "*"
