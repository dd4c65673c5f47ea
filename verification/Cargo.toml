[package]
name = "ff-core"
version = "0.1.0"
edition = "2021"
publish = false

[dependencies]
getrandom = "=0.4.3"
gix = { version = "=0.90.0", default-features = false, features = ["sha1"] }
serde = { version = "1", features = ["derive"] }
serde_json = "1"
thiserror = "=2.0.21"
