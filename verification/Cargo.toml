[package]
name = "nagato_apply"
version = "0.1.0"
edition = "2021"
publish = false

[dependencies]
bstr = "1"
flate2 = "1"
sha1 = "0.10"
memmap2 = "0.9"
