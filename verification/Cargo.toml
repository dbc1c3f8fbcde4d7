[package]
name = "copernica"
version = "0.1.0"
edition = "2021"
publish = false

[dependencies]
anyhow = "=1.0.104"
bincode = "=1.3.3"
bitvec = "=1.1.1"
futures = "=0.3.34"
log = "=0.4.34"
lru = "=0.7.8"
sled = "=0.34.7"
