[package]
name = "rustfmsynth"
version = "0.1.0"
edition = "2021"

[dependencies]
cpal = "0.15"
device_query = "*"
rand = "0.8"
