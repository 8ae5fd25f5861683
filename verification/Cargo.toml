[package]
name = "builder_cpp"
version = "0.5.3"
edition = "2021"
publish = false

[dependencies]
clap = { version = "4", features = ["derive"] }
colored = "2"
directories = "5"
indicatif = "0.17"
itertools = "0.11"
rayon = "1"
serde = { version = "1", features = ["derive"] }
sha1 = "0.10"
toml = "0.8"
