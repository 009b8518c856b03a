[package]
name = "chess_engine"
version = "0.1.0"
edition = "2021"
publish = false

[dependencies]
clap = "=3.2.25"
kstring = "=2.0.2"
liquid = "=0.26.11"
rocket = "=0.5.2"
