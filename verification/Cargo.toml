[package]
name = "deskthing"
version = "0.1.0"
edition = "2021"
publish = false

[dependencies]
glam = "=0.27.0"
macroquad = "=0.4.16"
miniquad = "=0.4.11"
rand = "=0.10.3"
rayon = "=1.12.0"
