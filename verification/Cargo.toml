[package]
name = "canvas"
version = "0.1.0"
edition = "2021"
publish = false

[dependencies]
uuid = "1"
chrono = { version = "0.4", default-features = false, features = ["clock", "std"] }
serde = { version = "1", features = ["derive"] }
serde_json = "1"
thiserror = "1"
actix-web = { version = "4", default-features = false, features = ["macros", "cookies", "secure-cookies"] }
actix-identity = "0.7"
actix-session = { version = "0.9", features = ["cookie-session"] }
sqlx = { version = "0.7", default-features = false, features = ["postgres", "runtime-tokio", "uuid", "chrono", "json", "macros"] }
oauth2 = { version = "4", default-features = false, features = ["reqwest", "rustls-tls"] }
reqwest = { version = "0.11", default-features = false, features = ["json", "rustls-tls"] }
