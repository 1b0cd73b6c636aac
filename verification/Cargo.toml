[package]
name = "devtracker"
version = "0.1.0"
edition = "2021"
publish = false

[dependencies]
regex = "1"
rusqlite = { version = "0.32", features = ["bundled"] }
serde = { version = "1", features = ["derive"] }
serde_json = "1"
chrono = "0.4"
directories = "5"
tokio = { version = "1", features = ["rt", "time"] }
