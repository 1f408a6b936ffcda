[package]
name = "octave"
version = "0.1.0"
edition = "2021"
publish = false

[dependencies]
fastapprox = "=0.3.1"
cpal = "=0.15.3"
