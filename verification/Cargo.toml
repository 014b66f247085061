[package]
name = "bbg"
version = "0.1.0"
edition = "2021"
publish = false

[dependencies]
cyber-hemera = "=0.3.1"
strata-nebu = "=0.1.1"
tade = "=0.1.0"
redb = "=2.6.4"
fjall = "=2.11.2"
serde = { version = "1", features = ["derive"] }
clap = { version = "4", features = ["derive"] }
