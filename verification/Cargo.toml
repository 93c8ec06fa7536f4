[package]
name = "windows-sddl"
version = "0.1.1"
edition = "2021"
publish = false

[dependencies]
bitflags = "2"
thiserror = "2"
