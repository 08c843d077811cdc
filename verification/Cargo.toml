[package]
name = "ctc_beam_decoder"
version = "0.1.0"
edition = "2021"
publish = false

[dependencies]
linkme = "=0.2.10"
rnet = "=0.3.1"
