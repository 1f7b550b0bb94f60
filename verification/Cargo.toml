[package]
name = "bulk"
version = "0.4.12"
edition = "2021"
publish = false

[dependencies]
argparse = "0.2"
env_logger = "0.10"
failure = "0.1"
flate2 = "1"
git2 = { version = "0.13", default-features = false }
lazy_static = "1"
libflate = "1"
log = "0.4"
matches = "0.1"
quick-error = "1"
quire = "0.4"
regex = "1"
scan_dir = "0.3"
serde = { version = "1", features = ["derive"] }
serde_derive = "1"
sha2 = "0.10"
tar = "0.4"
tempfile = "3"
time = "0.1"
unicase = "2"
