[package]
name = "clprobe"
version = "0.1.0"
edition = "2021"
publish = false

[dependencies]
anyhow = "=1.0.104"
cranelift-codegen = "=0.135.8"
cranelift-frontend = "=0.135.8"
cranelift-module = "=0.135.8"
cranelift-native = "=0.135.8"
cranelift-object = "=0.135.8"
