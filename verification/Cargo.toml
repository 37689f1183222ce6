[package]
name = "my_library"
version = "0.1.0"
edition = "2021"

[dependencies]
anyhow = "1"
bevy = { version = "=0.12.1", default-features = false }
rand = "=0.8.8"
rand_pcg = "=0.3.1"
rand_xorshift = "=0.3.0"
