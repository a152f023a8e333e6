[package]
name = "micrograd_rs"
version = "0.1.0"
edition = "2021"
publish = false

[dependencies]
rand = "0.8"
rand_distr = "0.4"
num-traits = "0.2"
plotters = "0.3"
colorous = "1"
