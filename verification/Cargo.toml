[package]
name = "eqlauncher"
version = "0.1.0"
edition = "2021"
publish = false

[dependencies]
fuzzy-matcher = "=0.3.7"
shell-words = "=1.1.1"
freedesktop_entry_parser = "=1.3.0"
freedesktop-icons = "=0.2.6"
