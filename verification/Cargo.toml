[package]
name = "sigil_interpreter"
version = "0.1.0"
edition = "2021"
publish = false

[dependencies]
ahash = "0.8"
lasso = "0.7"
slab = "0.4"
smallvec = "1"
thiserror = "2"
ariadne = "0.5"
