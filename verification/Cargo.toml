[package]
name = "lazy_iter_core"
version = "0.1.0"
edition = "2021"
publish = false

[dependencies]
pest = "*"
unicode-segmentation = "*"
