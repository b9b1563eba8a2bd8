[package]
name = "aleph_alpha_tokenizer"
version = "0.3.1"
edition = "2021"
publish = false

[dependencies]
fst = "0.4"
tokenizers = { version = "*", default-features = false, features = ["unstable_wasm"] }
