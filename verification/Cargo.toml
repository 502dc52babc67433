[package]
name = "funky_lib"
version = "0.1.0"
edition = "2021"
publish = false

[dependencies]
slug = "0.1"
tera = { version = "1", default-features = false }
clap = { version = "4", features = ["derive", "env"] }
color-eyre = "0.6"
ctrlc = "3"
shellexpand = "3"
arboard = { version = "3", default-features = false }
inquire = "0.7"
tempfile = "3"
