[package]
name = "quail"
version = "0.1.0"
edition = "2021"
publish = false

[dependencies]
Cupcake = { version = "=0.2.1", features = ["bench"] }
rust-crypto = "=0.2.36"
rand = "=0.8.8"
rand_distr = "=0.4.3"
merkle_light = "=0.4.0"
rsa = "=0.5.0"
ark-ff = "=0.3.0"
ark-ec = "=0.3.0"
ark-bls12-381 = "=0.3.0"
ark-relations = "=0.3.0"
ark-serialize = "=0.3.0"
ark-std = "=0.3.0"
ark-groth16 = "=0.3.0"
threshold-secret-sharing = "=0.2.2"
ring-algorithm = "=0.8.0"
bincode = "=1.3.3"
serde = { version = "=1.0.229", features = ["derive"] }
config = "=0.11.0"
tokio = { version = "=1.54.1", features = ["full"] }
tarpc = { version = "=0.27.2", features = ["full"] }
futures = "=0.3.34"
tracing = "=0.1.44"
tracing-subscriber = "=0.3.23"
anyhow = "=1.0.104"
rayon = "=1.12.0"
cancellable-timer = "=0.1.0"
