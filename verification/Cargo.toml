[package]
name = "wfg_rs"
version = "0.1.0"
edition = "2021"
publish = false

[dependencies]
ndarray = { version = "0.17.2", default-features = false }
num = { version = "0.4.3", default-features = false, features = ["libm"] }
