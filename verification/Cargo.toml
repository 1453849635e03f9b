[package]
name = "rustsearch"
version = "0.1.0"
edition = "2021"
publish = false

[dependencies]
walkdir = "2"
winapi = { version = "0.3", features = ["fileapi", "handleapi", "ioapiset", "winnt", "minwindef", "ntdef"] }
