[package]
name = "neg_c"
version = "0.1.0"
edition = "2021"
publish = false

[dependencies]
ariadne = "*"
piku = "*"
logos = "*"
clap = { version = "*", features = ["derive"] }
