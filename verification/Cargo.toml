[package]
name = "mu_config"
version = "0.1.0"
edition = "2021"
publish = false

[dependencies]
toml = "0.8"
serde = { version = "1", features = ["derive"] }
log = "0.4"
syn = { version = "2", features = ["full", "extra-traits"] }
quote = "1"
proc-macro2 = "1"
lazy_static = "1"
spin = "0.9"
uart_16550 = "0.3"
x86_64 = { version = "0.15", default-features = false, features = ["instructions"] }
r-efi = "5"
