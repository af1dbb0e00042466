[package]
name = "tuning_studio"
version = "0.1.0"
edition = "2021"
publish = false

[dependencies]
gimli = "=0.32.3"
object = { version = "=0.37.3", default-features = false, features = ["read_core", "elf", "unaligned", "std", "write_std"] }
ryu = "=1.0.23"
chrono = "=0.4.45"
mcap = "=0.23.4"
serde = { version = "=1.0.229", features = ["derive"] }
serde_json = "=1.0.154"
libloading = "=0.8.9"
libc = "=0.2.191"
critical-section = { version = "=1.2.0", features = ["std"] }
thiserror = "=2.0.21"
tracing = "=0.1.44"
