[package]
name = "kycok"
version = "0.1.0"
edition = "2021"
publish = false

[dependencies]
blake3 = "=1.8.7"
sha1 = "=0.11.0"
fastcdc = "=5.0.0"
uuid = { version = "=1.27.0", features = ["v4"] }
postcard = { version = "*", features = ["use-std"] }
serde = { version = "*", features = ["derive"] }
tokio = { version = "*", features = ["full"] }
axum = "*"
fjall = "=3.1.12"
tempfile = "*"
anyhow = "*"
reqwest = { version = "*", default-features = false, features = ["json", "multipart", "stream"] }
rand = { version = "=0.9.5", features = ["small_rng"] }
rand_distr = "=0.5.1"
sketches-ddsketch = "*"
bytesize = "*"
yansi = "*"
indexmap = "*"
base16ct = { version = "*", features = ["alloc"] }
futures = "*"
futures-util = "*"
