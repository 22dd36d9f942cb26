[package]
name = "goose"
version = "0.1.0"
edition = "2021"
publish = false

[dependencies]
qemu-exit = "=4.0.0"

[dev-dependencies]
goblin = "=0.10.7"
