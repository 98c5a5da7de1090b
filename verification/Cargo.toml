[package]
name = "emoji_cheat_sheet"
version = "0.1.0"
edition = "2021"
publish = false

[dependencies]
serde_json = "*"
select = "*"
unicode_categories = "*"
unicode-segmentation = "*"
reqwest = { version = "*", default-features = false }
tokio = { version = "*", default-features = false, features = ["rt-multi-thread", "macros"] }
toml = "*"
