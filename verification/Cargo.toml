[package]
name = "manille"
version = "0.1.0"
edition = "2021"
publish = false

[dependencies]
rand = "0.9"
romu = "*"
ismcts = "*"
chrono = "0.4"
macroquad = "*"
jabba = "*"
rust-embed = "*"
