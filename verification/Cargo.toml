[package]
name = "vgos"
version = "0.1.0"
edition = "2021"
publish = false

[dependencies]
font8x8 = "*"
limine = "*"
linked_list_allocator = "*"
spin = "*"
x86_64 = "*"
