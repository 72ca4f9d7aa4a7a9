[package]
name = "rubyfmt"
version = "0.1.0"
edition = "2021"
publish = false

[dependencies]
memchr = "=2.8.3"
ruby-prism = "=2.1.0"
simplelog = "=0.12.2"
