[package]
name = "mbf_bam_quantifier"
version = "0.1.0"
edition = "2021"
publish = false

[dependencies]
anyhow = "=1.0.104"
bio = "=4.2.2"
env_logger = "=0.11.11"
ex = "=0.1.3"
# the gzip backend that niffler's `gz` feature builds on
flate2 = "=1.1.10"
human-panic = "=2.0.8"
linereader = "=0.4.0"
# the logging facade that the macros of measure_time expand to
log = "=0.4.34"
measure_time = "=0.9.0"
niffler = { version = "=3.0.1", default-features = false, features = ["gz"] }
rayon = "=1.12.0"
regex = "=1.13.1"
rust-htslib = { version = "=1.0.2", default-features = false }
serde = { version = "=1.0.229", features = ["derive"] }
serde_valid = "=3.2.0"
string-interner = "=0.20.0"
toml = "=1.1.8"
twoway = "=0.2.2"
