[package]
name = "svgcleaner"
version = "0.1.0"
edition = "2021"
publish = false

[dependencies]
svgdom = "*"
clap = "2"
serde_json = "1"
time = "0.1"
