[package]
name = "freedesktop-icons"
version = "0.1.0"
edition = "2021"
publish = false

[dependencies]
rust-ini = "0.21"
dirs = "5"
xdg = "2"
once_cell = "1"
walkdir = "2"
thiserror = "1"
tracing = "0.1"
