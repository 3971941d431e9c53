[package]
name = "eth2_ee"
version = "0.1.0"
edition = "2021"
publish = false

[dependencies]
arborist = "=0.0.5"
arrayref = "=0.3.9"
bonsai = { version = "=0.2.1", default-features = false, features = ["u128"] }
ewasm = "=0.1.2"
oof = { version = "=0.1.1", features = ["generate"] }
wabt = "=0.10.0"
