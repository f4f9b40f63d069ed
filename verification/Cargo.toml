[package]
name = "relay"
version = "0.1.0"
edition = "2021"
publish = false

[dependencies]
crc = "3"
noto-sans-mono-bitmap = "0.3"
uart_16550 = "*"
uefi = "*"
