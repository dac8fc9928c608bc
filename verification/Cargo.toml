[package]
name = "bkupeval"
version = "0.1.0"
edition = "2021"
publish = false

[dependencies]
chrono = "0.4"
regex = "1"
kamadak-exif = "*"
walkdir = "2"
gtk4 = "*"
