[package]
name = "enfusion_pak"
version = "0.1.0"
edition = "2021"
publish = false

[dependencies]
flate2 = "1"
jiff = "*"
vfs = "*"
memmap2 = "0.9"
clap = { version = "4", features = ["derive"] }
color-eyre = "0.6"
humansize = "2"
async-trait = "0.1"
oval = "*"
