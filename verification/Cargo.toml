[package]
name = "spatial_join"
version = "0.1.0"
edition = "2021"
publish = false

[dependencies]
geo = "0.28"
rayon = "1"
num_cpus = "1"
thiserror = "1"
