[package]
name = "indexstore"
version = "0.1.0"
edition = "2021"
publish = false

[dependencies]
clap = "=2.34.0"
stderrlog = "=0.6.0"
