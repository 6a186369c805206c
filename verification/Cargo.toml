[package]
name = "json_fanout"
version = "0.1.0"
edition = "2021"
publish = false

[dependencies]
argparse = "*"
num_cpus = "*"
postgres = "*"
