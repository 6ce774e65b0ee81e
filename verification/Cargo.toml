[package]
name = "bfjit"
version = "0.1.0"
edition = "2021"
publish = false

[dependencies]
clap = { version = "=4.6.7", features = ["derive"] }
cranelift = "=0.132.3"
cranelift-native = "=0.132.3"
dynasmrt = "=5.1.0"
memmap2 = "=0.9.12"
