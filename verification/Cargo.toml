[package]
name = "colaz"
version = "0.1.0"
edition = "2021"
publish = false

[dependencies]
md-5 = "*"
alpm = "*"
anyhow = "*"
ignore = "*"
log = "*"
pretty_env_logger = "*"
rayon = "*"
structopt = "*"
walkdir = "*"
