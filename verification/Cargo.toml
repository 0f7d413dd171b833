[package]
name = "vmmap"
version = "0.1.0"
edition = "2021"

[dependencies]
nodit = "=0.9.2"
