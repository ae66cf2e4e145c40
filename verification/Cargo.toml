[package]
name = "bitmotif"
version = "0.1.0"
edition = "2021"
publish = false

[dependencies]
itertools = "0.14"
hashbrown = "0.15"
foldhash = "0.1"
indicatif = "0.17"
rkyv = "0.8"
syn = { version = "2", features = ["full"] }
quote = "1"
proc-macro2 = "1"
num-traits = "0.2"
