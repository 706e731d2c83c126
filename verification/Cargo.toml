[package]
name = "audio_prep"
version = "0.1.0"
edition = "2021"
publish = false

[dependencies]
ebur128 = "0.1"
eyre = "0.6"
rubato = "0.15"
