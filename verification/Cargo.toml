[package]
name = "series_store"
version = "0.1.0"
edition = "2021"
publish = false

[dependencies]
nix = { version = "*", features = ["uio"] }
once_cell = "*"
parking_lot = "*"
snafu = "*"
