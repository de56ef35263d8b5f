[package]
name = "serial_transfer"
version = "0.1.0"
edition = "2021"
publish = false

[dependencies]
chrono = { version = "0.4", default-features = false, features = ["clock"] }
mio = { version = "*", features = ["os-poll"] }
mio-serial = { version = "*", default-features = false }
serialport = { version = "*", default-features = false }
