[package]
name = "toyni"
version = "0.1.0"
edition = "2021"
publish = false

[dependencies]
ark-bls12-381 = "0.5"
ark-ff = "0.5"
ark-poly = "0.5"
rand = "0.8"
sha2 = "0.10"
