[package]
name = "haribote"
version = "0.1.0"
edition = "2021"
publish = false

[dependencies]
bootloader = { version = "=0.9.35", features = ["map_physical_memory"] }
lazy_static = { version = "=1.5.1", features = ["spin_no_std"] }
pc-keyboard = "=0.5.1"
pic8259_simple = "=0.2.0"
ps2-mouse = "=0.1.4"
spin = "=0.5.2"
vga = "=0.2.9"
volatile = "=0.2.7"
x86_64 = "=0.14.13"
