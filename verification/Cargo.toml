[package]
name = "delorean_table"
version = "0.1.0"
edition = "2021"
publish = false

[dependencies]
snafu = "0.6"
