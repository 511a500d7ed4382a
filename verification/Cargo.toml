[package]
name = "zooid_lake"
version = "0.1.0"
edition = "2021"
publish = false

[dependencies]
base64 = "0.22.1"
directories = "6.0.0"
postcard = { version = "1.1.3", features = ["use-std"] }
rand = "0.10.3"
serde = { version = "1.0.229", features = ["derive"] }
strum = { version = "0.28.0", features = ["derive"] }
tinyvec = { version = "1.13.3", features = ["alloc"] }
web-sys = { version = "0.3.107", features = ["Window", "Storage"] }
