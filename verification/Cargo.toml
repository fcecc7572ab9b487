[package]
name = "zero2prod"
version = "0.1.0"
edition = "2021"
publish = false

[dependencies]
actix-session = { version = "=0.10.1", features = ["redis-session"] }
actix-web = { version = "=4.18.1", default-features = false, features = ["macros", "cookies", "secure-cookies"] }
actix-web-flash-messages = { version = "=0.5.1", features = ["cookies"] }
anyhow = "=1.0.104"
reqwest = { version = "0.12", default-features = false, features = ["json"] }
secrecy = "=0.8.0"
serde_json = "=1.0.154"
sqlx = { version = "=0.8.6", default-features = false, features = ["runtime-tokio", "postgres"] }
tokio = { version = "=1.54.1", features = ["macros", "rt-multi-thread", "time", "net", "io-util"] }
tracing-actix-web = "=0.7.25"
