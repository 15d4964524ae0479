[package]
name = "locale_match"
version = "0.2.0"
edition = "2021"
publish = false

[dependencies]
language-tags = "0.3"
