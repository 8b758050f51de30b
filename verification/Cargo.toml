[package]
name = "conflux_utils"
version = "0.1.0"
edition = "2021"
publish = false

[dependencies]
lru_time_cache = "=0.11.11"
chrono = "=0.4.45"
once_cell = "=1.21.4"
parking_lot = "=0.12.5"
lazy_static = "=1.5.1"
log = "=0.4.35"
diem-crypto = "*"
