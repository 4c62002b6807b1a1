[package]
name = "sppf_tester"
version = "0.1.0"
edition = "2021"
publish = false

[dependencies]
gll = "*"
proc-macro2 = "*"
structopt = "*"
walkdir = "*"
