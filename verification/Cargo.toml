[package]
name = "dshot-pio"
version = "0.1.0"
edition = "2021"
publish = false

[dependencies]
pio = "=0.2.1"
rp2040-hal = "=0.10.2"
embassy-rp = "=0.1.0"
