[package]
name = "erudify"
version = "0.1.0"
edition = "2021"
publish = false

[dependencies]
haoxue-dict = "*"
prettify_pinyin = "*"
serde = { version = "*", features = ["derive"] }
serde_yaml = "*"
chrono = { version = "*", features = ["serde"] }
clap = { version = "*", features = ["derive"] }
itertools = "*"
directories = "*"
