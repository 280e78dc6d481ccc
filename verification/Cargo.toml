[package]
name = "dirstat"
version = "0.1.0"
edition = "2021"
publish = false

[dependencies]
clap = "2"
humansize = "1"
pad = "0.1"
