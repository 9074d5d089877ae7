[package]
name = "ray_tracer_challenge"
version = "0.1.0"
edition = "2021"
publish = false

[dependencies]
uuid = { version = "*", features = ["v4"] }
rayon = "*"
indicatif = "*"
