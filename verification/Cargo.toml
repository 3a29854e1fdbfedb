[package]
name = "savegame_analysis"
version = "0.1.0"
edition = "2021"
publish = false

[dependencies]
btoi = "*"
twoway = "*"
libm = "*"
rayon = "*"
