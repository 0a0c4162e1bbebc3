[package]
name = "casper_db_utils"
version = "0.1.0"
edition = "2021"
publish = false

[dependencies]
casper-types = "=7.0.0"
casper-storage = "=5.0.0"
clap = "=3.2.25"
lmdb-rkv = "=0.14.0"
log = "0.4"
thiserror = "*"
anyhow = "*"
serde = "*"
serde_json = "*"
