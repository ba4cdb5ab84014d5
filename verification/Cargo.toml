[package]
name = "rust_kernel"
version = "0.1.0"
edition = "2021"
publish = false

[dependencies]
spin = "=0.5.2"
x86_64 = { version = "=0.14.13", default-features = false, features = ["instructions"] }
bootloader = { version = "=0.9.35", features = ["map_physical_memory"] }
volatile = "=0.2.7"
lazy_static = { version = "=1.5.1", features = ["spin_no_std"] }
pic8259_simple = "=0.2.0"
pc-keyboard = "=0.5.1"
crossbeam-queue = { version = "0.3", default-features = false, features = ["alloc"] }
conquer-once = { version = "=0.2.1", default-features = false }
futures-util = { version = "=0.3.34", default-features = false, features = ["alloc"] }
