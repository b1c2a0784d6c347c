[package]
name = "generic_upper_bound"
version = "0.1.0"
edition = "2021"
publish = false

[dependencies]
type-const = "*"
