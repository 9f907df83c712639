[package]
name = "redc"
version = "0.1.0"
edition = "2021"
publish = false

[dependencies]
gmp-mpfr-sys = { version = ">=1.4, <1.6", default-features = false, features = ["use-system-libs"] }
num-traits = "=0.2.19"
rug = { version = ">=1.16, <1.20", default-features = false, features = ["integer"] }
twoword = "=0.1.0"
uint = "=0.10.2"
