[package]
name = "defmt_persist"
version = "0.1.0"
edition = "2021"
publish = false

[dependencies]
bbqueue = "0.4"
crc = "1"
rzcobs = "0.1"
embedded-storage = "0.1"
cortex-m = "0.7"
defmt = "0.2"
