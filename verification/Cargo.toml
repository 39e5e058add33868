[package]
name = "rscc"
version = "0.1.0"
edition = "2021"
publish = false

[dependencies]
cc = "1"
clap = { version = "4", features = ["derive"] }
colored = "2"
cranelift = "0.113"
cranelift-codegen = "0.113"
cranelift-jit = "0.113"
cranelift-module = "0.113"
cranelift-object = "0.113"
rand = "0.8"
target-lexicon = "0.12"
