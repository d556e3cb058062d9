[package]
name = "chopin"
version = "0.1.0"
edition = "2021"
publish = false

[dependencies]
hermit-dtb = "=0.1.1"
log = "=0.4.34"
riscv = "=0.16.1"
sbi = "=0.3.0"
