[package]
name = "groth16_params"
version = "0.1.0"
edition = "2021"
publish = false

[dependencies]
bellpepper-core = { version = "*", default-features = false }
bls12_381 = "0.8"
byteorder = "1"
ec-gpu-gen = { version = "*", default-features = false }
group = "0.13"
memmap2 = "*"
pairing = "0.23"
