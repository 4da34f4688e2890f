[package]
name = "protoc_gen_prost"
version = "0.1.0"
edition = "2021"
publish = false

[dependencies]
anyhow = "1"
prettyplease = "*"
proc-macro2 = "1"
prost = "*"
prost-build = "*"
prost-types = "*"
quote = "1"
syn = { version = "*", features = ["full"] }
