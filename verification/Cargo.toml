[package]
name = "diode"
version = "0.1.0"
edition = "2021"
publish = false

[dependencies]
hex = "0.4"
md5 = "*"
sha2 = "0.10"
reed-solomon-simd = "*"
clap = { version = "4", features = ["derive"] }
log = "0.4"
syslog = "*"
libc = "0.2"
serialport = { version = "4", default-features = false }
