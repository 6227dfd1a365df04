[package]
name = "tab_bar"
version = "0.1.0"
edition = "2021"
publish = false

[dependencies]
ansi_term = "*"
unicode-width = "=0.2.2"
zellij-tile = "=0.45.1"
zellij-tile-utils = "=0.45.1"
