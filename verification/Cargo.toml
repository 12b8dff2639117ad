[package]
name = "sealed_fs"
version = "0.1.0"
edition = "2021"
publish = false

[dependencies]
hmac = "0.12"
sha2 = "0.10"
sgx_rand = "*"
