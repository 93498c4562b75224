[package]
name = "turing_lang"
version = "0.1.0"
edition = "2021"
publish = false

[dependencies]
bitvec = "1"
pest = "2"
pest_derive = "2"
thiserror = "1"
