[package]
name = "stardict"
version = "0.1.0"
edition = "2021"
publish = false

[dependencies]
edit-distance = "2"
regex = "1"
flate2 = "1"
rayon = "1"
serde = { version = "1", features = ["derive"] }
serde_json = "1"
thiserror = "1"
directories = "5"
anyhow = "1"
