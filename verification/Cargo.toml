[package]
name = "nyah"
version = "0.1.0"
edition = "2021"
publish = false

[dependencies]
blake2 = "*"
memmap2 = "*"
laminar = "*"
crossbeam-channel = "*"
rmp-serde = "*"
serde = { version = "*", features = ["derive"] }
walkdir = "*"
local-ip-address = "*"
argh = "*"
libhumancode = "*"
hex = "*"
