[package]
name = "berlin_search"
version = "0.1.0"
edition = "2021"
publish = false

[dependencies]
fst = { version = "0.4", features = ["levenshtein"] }
strsim = "*"
unicode-segmentation = "*"
unicode-normalization = "*"
serde = { version = "1", features = ["derive"] }
serde_json = "1"
csv = "1"
