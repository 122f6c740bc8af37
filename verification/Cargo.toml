[package]
name = "srcprof"
version = "0.1.0"
edition = "2021"
publish = false

[dependencies]
anyhow = "*"
dunce = "*"
git2 = "*"
rayon = "*"
structopt = "*"
walkdir = "*"
