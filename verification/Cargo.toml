[package]
name = "frost_sign"
version = "0.1.0"
edition = "2021"
publish = false

[dependencies]
rug = { version = "=1.19.2", default-features = false, features = ["integer"] }
gmp-mpfr-sys = { version = "1.5", default-features = false, features = ["use-system-libs"] }
sha256 = { version = "=1.6.0", default-features = false }
