[package]
name = "bstr"
version = "0.1.0"
edition = "2021"
publish = false

[dependencies]
proptest = "1"
quickcheck = "1"
rand = "0.9"
crabcheck = "*"
hegel = "*"
