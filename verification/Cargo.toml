[package]
name = "twilight_kernel"
version = "0.1.0"
edition = "2021"
publish = false

[dependencies]
acpi = { version = "5", default-features = false }
bit_field = "=0.10.3"
lazy_static = "=1.5.1"
limine = "=0.5.0"
linked_list_allocator = "=0.10.6"
smoltcp = { version = "=0.14.0", default-features = false, features = ["alloc", "medium-ethernet", "proto-ipv4", "socket-udp"] }
spin = "=0.12.3"
x86_64 = { version = "=0.15.5", default-features = false, features = ["instructions"] }
