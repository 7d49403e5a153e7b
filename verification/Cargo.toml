[package]
name = "post_prove"
version = "0.1.0"
edition = "2021"
publish = false

[dependencies]
aes = "=0.8.4"
cipher = { version = "=0.4.4", features = ["block-padding"] }
blake3 = { version = "=1.8.7", features = ["pure"] }
bytemuck = "=1.25.2"
primitive-types = "=0.12.2"
eyre = "=0.6.14"
log = "=0.4.35"
rayon = "=1.12.0"
serde = { version = "1", features = ["derive"] }
serde_with = { version = "=3.24.0", features = ["base64"] }

[dev-dependencies]
rand = "0.8"
