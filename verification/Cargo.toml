[package]
name = "prompt_segment"
version = "0.1.0"
edition = "2021"
publish = false

[dependencies]
nu-ansi-term = "0.50"
unicode-segmentation = "1"
unicode-width = "0.2"
