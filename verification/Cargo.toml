[package]
name = "sv39_core"
version = "0.1.0"
edition = "2021"
publish = false

[dependencies]
xmas-elf = "*"
riscv = "*"
spin = "*"
