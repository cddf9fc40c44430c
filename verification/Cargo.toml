[package]
name = "little_exif"
version = "0.1.0"
edition = "2021"
publish = false

[dependencies]
crc = "3"
miniz_oxide = "0.8"
