[package]
name = "particles"
version = "0.1.0"
edition = "2021"
publish = false

[dependencies]
rayon = "1"
num_cpus = "1"
scoped_threadpool = "0.1"
coffee = { version = "0.4", features = ["opengl"] }
