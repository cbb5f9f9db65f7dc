[package]
name = "octopos"
version = "0.1.0"
edition = "2021"
publish = false

[dependencies]
buddy-alloc = "=0.6.0"
