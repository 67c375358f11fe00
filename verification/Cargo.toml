[package]
name = "subtitles"
version = "0.2.0"
edition = "2021"
publish = false

[dependencies]
unicode-segmentation = "1"
clap = "4"
csv = "1"
