[package]
name = "voronoi"
version = "0.1.0"
edition = "2021"
publish = false

[dependencies]
clap = "2"
futures = "0.1"
futures-cpupool = "0.1"
hsl = "0.1"
image = "0.19"
rand = "0.6"
