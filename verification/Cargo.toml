[package]
name = "lowcat"
version = "0.1.0"
edition = "2021"
publish = false

[dependencies]
lofty = "=0.22.4"
sea-query = { version = "=0.32.7", default-features = false, features = ["backend-sqlite"] }
sqlx = { version = "=0.8.6", default-features = false, features = ["sqlite", "runtime-async-std"] }
futures = "0.3"
serde = { version = "1", features = ["derive"] }
toml = "0.9"
trash = "5"
rodio = { version = "0.22", default-features = false, features = ["playback"] }
symphonia = { version = "=0.5.5", default-features = false, features = ["ogg"] }
symphonia-adapter-libopus = "0.2"
