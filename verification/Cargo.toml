[package]
name = "shuffle_entropy"
version = "0.1.0"
edition = "2021"
publish = false
