[package]
name = "debby"
version = "0.1.0"
edition = "2021"
publish = false

[dependencies]
ar = "0.9"
tar = "0.4"
flate2 = "1"
xz2 = "0.1"
bzip2 = "*"
zstd = "*"
clap = { version = "4", features = ["derive"] }
clio = { version = "*", features = ["clap-parse"] }
cli-table = "*"
colored = "*"
directories = "*"
env_logger = "*"
indicatif = "*"
log = "0.4"
ptree = "*"
sqlite3 = "*"
sudo = "*"
walkdir = "2"
