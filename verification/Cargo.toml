[package]
name = "art_dice"
version = "0.1.0"
edition = "2021"
publish = false

[dependencies]
itertools = "*"
