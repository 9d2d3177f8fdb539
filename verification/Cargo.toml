[package]
name = "nginx_tail"
version = "0.1.0"
edition = "2021"
publish = false

[dependencies]
smol = "*"
pico-args = "*"
signal-hook = "*"
rustix = { version = "*", features = ["termios"] }
