[package]
name = "tangler"
version = "1.0.0"
edition = "2021"
publish = false

[dependencies]
clap = "2.33"
pest = "2"
pest_derive = "2"
