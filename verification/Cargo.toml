[package]
name = "regioned"
version = "0.1.0"
edition = "2021"
publish = false

[dependencies]
hashbrown = "=0.14.5"
tinyvec = { version = "=1.13.3", features = ["alloc"] }
