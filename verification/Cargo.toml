[package]
name = "rs_ecc"
version = "0.1.0"
edition = "2021"
publish = false
