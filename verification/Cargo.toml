[package]
name = "toggl_summary"
version = "0.1.0"
edition = "2021"
publish = false

[dependencies]
chrono = "*"
chrono-english = "*"
clap = { version = "*", features = ["derive"] }
colored = "*"
dotenv = "*"
hex_color = "*"
reqwest = { version = "*", default-features = false, features = ["json"] }
serde = { version = "*", features = ["derive"] }
tokio = { version = "*", features = ["rt", "macros"] }
