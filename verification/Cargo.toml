[package]
name = "print_type_sizes"
version = "0.1.0"
edition = "2021"
publish = false

[dependencies]
clap = "*"
gag = "*"
