[package]
name = "zappy_server"
version = "0.1.0"
edition = "2021"
publish = false

[dependencies]
rand = "0.8"
clap = { version = "4", features = ["derive"] }
mio = { version = "1", features = ["os-poll", "net"] }
ratatui = "0.29"
crossterm = "0.28"
