[package]
name = "radial_nav"
version = "0.1.0"
edition = "2021"
publish = false

[dependencies]
colored = "2"
datetime = "0.5"
rand = "0.8"
