[package]
name = "web2050"
version = "0.1.0"
edition = "2021"
publish = false

[dependencies]
mime_guess = "*"
time = "=0.3.55"
axum = "*"
tokio = { version = "1", features = ["full"] }
tokio-util = { version = "*", features = ["io"] }
futures-util = "*"
async-stream = "*"
serde = { version = "1", features = ["derive"] }
serde_json = "1"
html-escape = "*"
jwalk = "*"
dotenvy = "*"
tower-http = { version = "*", features = ["fs"] }
reqwest = { version = "*", default-features = false, features = ["json", "stream"] }
