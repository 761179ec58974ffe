[package]
name = "rayzor_runtime"
version = "0.1.0"
edition = "2021"
publish = false

[dependencies]
backtrace = "0.3"
chrono = "0.4"
flate2 = "1"
half = "2"
lazy_static = "1"
libc = "0.2"
parking_lot = "0.12"
regex = "1"
