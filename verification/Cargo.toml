[package]
name = "ormatex_sem_nd"
version = "0.1.0"
edition = "2021"
publish = false

[dependencies]
faer = "*"
rayon = "1"
