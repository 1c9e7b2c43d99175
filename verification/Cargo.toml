[package]
name = "poster_text"
version = "0.1.0"
edition = "2021"
publish = false

[dependencies]
jieba-rs = "*"
image = "0.23"
imageproc = "0.22"
rusttype = "0.9"
