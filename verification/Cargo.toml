[package]
name = "stack_profile"
version = "0.1.0"
edition = "2021"
publish = false

[dependencies]
anyhow = "=1.0.104"
cairo-lang-runner = "=2.21.0"
cairo-lang-sierra = "=2.21.0"
cairo-lang-utils = "=2.21.0"
camino = "=1.2.6"
clap = { version = "=4.6.7", features = ["derive"] }
flate2 = "=1.1.10"
inferno = { version = "=0.12.8", default-features = false }
num-bigint = "=0.4.8"
pprof = { version = "=0.14.1", default-features = false, features = ["prost-codec"] }
scarb-metadata = "=1.15.1"
scarb-ui = "=0.1.7"
serde_json = "=1.0.154"
webbrowser = "=0.5.5"
