[package]
name = "box_packing"
version = "0.1.0"
edition = "2021"
publish = false

[dependencies]
regex = "1"
argon2 = { version = "0.5", features = ["std"] }
serde = { version = "1", features = ["derive"] }
serde_json = "1"
actix-web = "4"
actix-cors = "0.7"
actix-jwt-auth-middleware = "0.5"
jwt-compact = { version = "0.8", features = ["ed25519-compact"] }
ed25519-compact = "2"
tokio = { version = "1", features = ["macros", "rt-multi-thread"] }
