[package]
name = "rustmameui"
version = "0.1.0"
edition = "2021"
publish = false

[dependencies]
quick-xml = "=0.37.5"
base64 = "=0.22.1"
serde = { version = "=1.0.229", features = ["derive"] }
serde_json = "=1.0.154"
thiserror = "=2.0.21"
zip = { version = "=2.6.1", default-features = false, features = ["deflate"] }
config = { version = "=0.15.27", default-features = false, features = ["toml"] }
dirs = "=6.0.0"
which = "=7.0.3"
rust-i18n = "=3.1.5"
locale_config = "=0.3.0"
tokio = { version = "=1.54.1", features = ["rt", "rt-multi-thread", "macros"] }
dioxus = "0.6"
rfd = "0.15"
