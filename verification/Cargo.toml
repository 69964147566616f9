[package]
name = "microduck"
version = "0.1.0"
edition = "2021"
publish = false

[dependencies]
semver = { version = "=1.0.28", features = ["serde"] }
serde = { version = "=1.0.229", features = ["derive"] }
serde_json = "=1.0.154"
thiserror = "=2.0.21"
tracing = "=0.1.44"
tokio = { version = "=1.54.1", features = ["sync", "time", "rt", "macros"] }
futures = "=0.3.34"
async-trait = "=0.1.92"
zbus = { version = "=5.19.0", default-features = false, features = ["tokio"] }
bluer = { version = "=0.17.4", features = ["bluetoothd"] }
libloading = "=0.8.9"
ort = { version = "=2.0.0-rc.15", default-features = false, features = ["load-dynamic"] }
toml = "0.8"
