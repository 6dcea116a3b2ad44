[package]
name = "lloth"
version = "0.1.0"
edition = "2021"
publish = false

[dependencies]
alkahest = { version = "0.1", features = ["derive"] }
bincode = "1.3"
bitsetium = "*"
bytemuck = "1"
edict = "*"
eyre = "0.6"
futures-task = "0.3"
hecs = "0.6"
scoped-arena = "*"
serde = { version = "1", features = ["derive"] }
thiserror = "1"
tokio = { version = "1", features = ["net", "rt", "time", "macros"] }
tracing = "0.1"
