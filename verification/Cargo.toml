[package]
name = "hsstats"
version = "0.1.0"
edition = "2021"
publish = false

[dependencies]
argparse = "*"
chrono = "*"
term = "*"
yaml = "*"
