[package]
name = "opt-eqsat"
version = "0.1.0"
edition = "2021"
publish = false

[dependencies]
rustc-hash = "=2.1.3"
rand = "0.10"
colored = "=3.1.1"
tabled = "=0.22.0"
