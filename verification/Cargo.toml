[package]
name = "stableprop"
version = "0.5.2"
edition = "2021"
publish = false

[dependencies]
burn-tensor = { version = "0.21.0", default-features = false, features = ["std"] }
burn-ndarray = { version = "0.21.0", default-features = false, features = ["std"] }
burn-autodiff = { version = "0.21.0", default-features = false, features = ["std"] }
