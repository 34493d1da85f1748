[package]
name = "wfcue"
version = "0.1.0"
edition = "2021"
publish = false

[dependencies]
anyhow = "=1.0.104"
blake3 = "=1.8.7"
clap = { version = "=4.6.7", features = ["derive"] }
claxon = "=0.4.3"
cue-rw = "=0.2.1"
hound = "=3.5.1"
indicatif = "=0.17.11"
inquire = "=0.9.4"
num-traits = "=0.2.19"
thiserror = "=2.0.21"
wild = "=2.2.1"
