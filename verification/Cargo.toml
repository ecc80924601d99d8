[package]
name = "svc"
version = "0.1.0"
edition = "2021"
publish = false

[dependencies]
log = "0.4"
smallvec = "=1.16.4"
thiserror = "=2.0.21"
