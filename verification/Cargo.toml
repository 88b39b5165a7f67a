[package]
name = "kernel_memory"
version = "0.1.0"
edition = "2021"
publish = false

[dependencies]
multiboot2 = { version = "*", default-features = false }
x86_64 = { version = "*", default-features = false, features = ["instructions"] }
spin = "0.9"
volatile = "0.2"
linked_list_allocator = "0.10"
