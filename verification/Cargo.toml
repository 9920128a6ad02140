[package]
name = "script_parser"
version = "0.1.0"
edition = "2021"
publish = false

[dependencies]
hashbrown = { version = "0.12", features = ["serde"] }
serde = { version = "1", features = ["derive"] }
serde_json = "1"
attohttpc = { version = "*", default-features = false, features = ["json"] }
bincode = "1"
dashmap = { version = "5", features = ["serde", "rayon"] }
either = { version = "1", features = ["serde"] }
rand = "0.8"
rayon = "1"
ron = "0.7"
tinystr = "0.4"
