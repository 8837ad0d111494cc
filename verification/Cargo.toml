[package]
name = "cloudsync"
version = "0.1.0"
edition = "2021"
publish = false

[dependencies]
firestore = "*"
gcloud-sdk = "*"
async-trait = "*"
serde = { version = "*", features = ["derive"] }
