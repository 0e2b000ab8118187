[package]
name = "lh_core"
version = "0.1.0"
edition = "2021"
publish = false

[dependencies]
anyhow = "*"
bendy = "*"
clap = { version = "4", features = ["derive"] }
claxon = "*"
crossbeam-channel = "*"
ctrlc = "*"
directories = "*"
hex = "*"
md-5 = "0.10"
metaflac = "*"
rayon = "*"
sha1 = "0.10"
sha2 = "0.10"
tempfile = "*"
thiserror = "*"
walkdir = "*"
which = "*"
