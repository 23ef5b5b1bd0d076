[package]
name = "asp_server"
version = "0.1.0"
edition = "2021"
publish = false

[dependencies]
anyhow = "*"
ark-bn254 = "=0.5.0"
ark-ff = "=0.5.0"
axum = "*"
dotenvy = "*"
light-poseidon = "=0.4.1"
serde = { version = "*", features = ["derive"] }
sqlx = { version = "*", default-features = false, features = ["runtime-tokio", "sqlite"] }
starknet = "*"
tokio = { version = "*", features = ["macros", "rt-multi-thread", "time", "net"] }
tower-http = { version = "*", features = ["cors"] }
url = "*"
