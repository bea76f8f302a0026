[package]
name = "musiq"
version = "0.1.0"
edition = "2021"
publish = false

[dependencies]
cpal = "0.15"
minimp3 = "0.5"
rand = "0.9"
