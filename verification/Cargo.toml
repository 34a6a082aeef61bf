[package]
name = "bitbang-hal-ng"
version = "0.1.0"
edition = "2021"
publish = false

[dependencies]
embedded-hal = "1.0"
embedded-io = "0.6"
cortex-m = "0.7"
