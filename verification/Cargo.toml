[package]
name = "minesweeper"
version = "0.1.0"
edition = "2021"
publish = false

[dependencies]
fastrand = "*"
minifb = "*"
ab_glyph = "*"
glam = "*"
