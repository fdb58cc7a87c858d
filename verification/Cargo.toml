[package]
name = "starrol"
version = "0.1.0"
edition = "2021"
publish = false

[dependencies]
sha2 = "=0.10.9"
k256 = "=0.13.4"
risc0-zkvm = { version = "=3.0.6", default-features = false }
bytemuck = { version = "=1.25.2", features = ["derive"] }
hex = "=0.4.3"
serde = { version = "=1.0.229", features = ["derive"] }
serde_json = "=1.0.154"
tokio = { version = "=1.54.1", features = ["full"] }
tonic = "=0.12.3"
prost = "=0.13.5"
async-trait = "=0.1.92"
sqlx = { version = "=0.8.6", default-features = false, features = ["postgres", "runtime-tokio"] }
rocksdb = "=0.22.0"
dotenvy = "=0.15.7"
tracing = "=0.1.44"
tracing-subscriber = { version = "=0.3.23", features = ["json"] }
tracing-appender = "=0.2.5"
