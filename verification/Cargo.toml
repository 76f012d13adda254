[package]
name = "boxlayout"
version = "0.1.0"
edition = "2021"
publish = false

[dependencies]
mini-v8 = "=0.4.1"
yoga = "=0.3.1"
