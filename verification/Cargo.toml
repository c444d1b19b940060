[package]
name = "astatine"
version = "0.1.0"
edition = "2021"
publish = false

[dependencies]
fuzzy-matcher = "0.3"
freedesktop-desktop-entry = "0.7"
freedesktop-icons = "0.4"
icon-loader = "0.4"
