[package]
name = "tonic_proto_transpiler"
version = "0.1.0"
edition = "2021"
publish = false

[dependencies]
anyhow = "1"
bytes = "1"
prost = "0.9"
prost-types = "0.9"
structopt = "0.3"
tonic-build = "0.6"
