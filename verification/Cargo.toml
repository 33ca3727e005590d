[package]
name = "bed_cov"
version = "0.1.0"
edition = "2021"
publish = false

[dependencies]
bio = "=4.2.2"
clap = "=2.34.0"
coitrees = "=0.4.0"
grep-cli = "=0.1.12"
num-traits = "=0.2.19"
rust-lapper = "=1.3.0"
termcolor = "=1.4.1"
