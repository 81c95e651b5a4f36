[package]
name = "ergibus"
version = "0.1.0"
edition = "2021"
publish = false

[dependencies]
globset = "0.4"
regex = "1"
serde = { version = "1", features = ["derive"] }
serde_json = "1"
serde_yaml = "0.9"
chrono = "0.4"
dirs = "5"
snap = "1"
walkdir = "2"
structopt = "0.3"
log = "0.4"
stderrlog = "0.5"
hostname = "0.3"
users = "0.11"
libc = "0.2"
thiserror = "1"
window-sort-iterator = "*"
