[package]
name = "zk_battleship"
version = "0.1.0"
edition = "2021"
publish = false

[dependencies]
ark-ed-on-bls12-381 = "=0.4.0"
ark-r1cs-std = "=0.4.0"
ark-relations = "=0.4.0"
itertools = "=0.10.5"
rand = "=0.8.8"
