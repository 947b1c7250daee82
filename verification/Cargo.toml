[package]
name = "rserver"
version = "0.1.0"
edition = "2021"
publish = false

[dependencies]
diesel = { version = "1.4", features = ["sqlite", "r2d2"] }
dotenv = "0.15"
serde = { version = "1", features = ["derive"] }
tera = "1"
