[package]
name = "demand_paging"
version = "0.1.0"
edition = "2021"
publish = false

[dependencies]
xmas-elf = "0.7"
bitflags = "1"
lazy_static = { version = "1.4", features = ["spin_no_std"] }
spin = "*"
riscv = "*"
