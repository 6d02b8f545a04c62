[package]
name = "room_graph"
version = "0.1.0"
edition = "2021"
publish = false

[dependencies]
rand = "0.9"
rand_pcg = "0.9"
anyhow = "1"
serde = { version = "1", features = ["derive"] }
serde_json = "1"
reqwest = { version = "0.12", features = ["blocking", "json"] }
dotenvy = "0.15"
strum = { version = "0.27", features = ["derive"] }
axum = "0.8"
tokio = { version = "1", features = ["full"] }
z3 = "*"
