[package]
name = "grib2pmtiles"
version = "0.1.0"
edition = "2021"
publish = false

[dependencies]
anyhow = "1"
bit-vec = "=0.10.1"
chrono = { version = "=0.4.45", default-features = false, features = ["std"] }
clap = { version = "4", features = ["derive"] }
fast_hilbert = "=2.1.0"
fast-mvt = "=0.6.2"
flate2 = "=1.1.10"
foldhash = "*"
pmtiles = { version = "=0.23.1", default-features = false, features = ["write"] }
png = "=0.18.1"
rayon = "1"
serde = { version = "1", features = ["derive"] }
serde_json = "1"
tracing = "0.1"
tracing-subscriber = { version = "0.3", default-features = false, features = ["fmt"] }
