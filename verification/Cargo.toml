[package]
name = "database"
version = "0.1.0"
edition = "2021"
publish = false

[dependencies]
crc64 = "2"
rand = "0.3"
rehashinghashmap = "=0.1.2"
skiplist = "0.6"
