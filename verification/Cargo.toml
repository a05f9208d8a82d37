[package]
name = "process_reaper"
version = "0.1.0"
edition = "2021"
publish = false

[dependencies]
byte-unit = "5"
clap = { version = "4", features = ["derive"] }
env_logger = "0.11"
libsystemd = "0.7"
log = "0.4"
signal-hook = "0.3"
sysinfo = "0.30"
