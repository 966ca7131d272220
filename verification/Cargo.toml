[package]
name = "dcmsort"
version = "0.1.0"
edition = "2021"
publish = false

[dependencies]
anyhow = "*"
clap = { version = "*", features = ["derive"] }
dicom-object = "*"
dicom-dictionary-std = "*"
serde = { version = "*", features = ["derive"] }
serde_json = "*"
walkdir = "*"
tracing = "*"
tracing-subscriber = { version = "*", features = ["env-filter"] }
rayon = "*"
