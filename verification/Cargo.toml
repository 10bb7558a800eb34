[package]
name = "mpsc"
version = "0.1.0"
edition = "2021"
publish = false

[dependencies]
arrayvec = "0.7"
netmap-rs = "*"
parking_lot = "0.12"
ringbuf = "0.4"
thiserror = "1"
triomphe = "0.1"
