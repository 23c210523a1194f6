[package]
name = "rustos"
version = "0.1.0"
edition = "2021"
publish = false

[dependencies]
goblin = "0.9"
smoltcp = { version = "0.11", default-features = false, features = ["std", "medium-ip", "proto-ipv4", "socket-tcp", "socket-udp"] }
spin = "0.9"
bitflags = "2"
