[package]
name = "music_editor"
version = "0.1.0"
edition = "2021"
publish = false

[dependencies]
crossterm = "=0.29.0"
strong-xml = "=0.6.3"
sxd-document = "*"
sxd-xpath = "*"
tempfile = "=3.27.0"
