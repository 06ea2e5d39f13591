[package]
name = "halo2_core"
version = "0.1.0"
edition = "2021"
publish = false

[dependencies]
ff = "0.13"
group = "0.13"
halo2 = "0.0.0"
pasta_curves = "0.5"
rand = "0.8"
subtle = "2.5"
