[package]
name = "strix_pipeline"
version = "0.1.0"
edition = "2021"
publish = false

[dependencies]
hashbrown = "*"
capitalize = "*"
counter = "*"
serde_json = "*"
time = "*"
serde = { version = "*", features = ["derive"] }
serde-saphyr = "*"
quick-xml = "*"
clap = { version = "*", features = ["derive"] }
thiserror = "*"
exn = "*"
fs-err = "*"
glob = "*"
log = "*"
itertools = "*"
