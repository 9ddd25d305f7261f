[package]
name = "road_planning"
version = "0.1.0"
edition = "2021"
publish = false

[dependencies]
descartes = "=0.1.20"
itertools = "=0.15.0"
