[package]
name = "sv39_mm"
version = "0.1.0"
edition = "2021"
publish = false

[dependencies]
bitflags = "*"
buddy_system_allocator = "*"
lazy_static = "*"
riscv = "*"
xmas-elf = "*"
