[package]
name = "ofi_pass"
version = "0.1.0"
edition = "2021"
publish = false

[dependencies]
directories = "*"
walkdir = "*"
log = "*"
