[package]
name = "cdcl_sat"
version = "0.1.0"
edition = "2021"
publish = false

[dependencies]
byte-unit = "5"
memory-stats = "1"
chrono = "0.4"
rand = "0.8"
crossterm = "*"
terminal-menu = "*"
