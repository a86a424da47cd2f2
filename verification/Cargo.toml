[package]
name = "loom"
version = "0.1.0"
edition = "2021"
publish = false

[dependencies]
ashpd = { version = "=0.13.13", features = ["screencast"] }
block2 = "=0.6.2"
bytes = "=1.12.1"
ciborium = "=0.2.2"
clap = { version = "=4.6.7", features = ["derive"] }
dispatch2 = "=0.3.1"
hex = "=0.4.3"
objc2 = "=0.6.5"
objc2-core-foundation = "=0.3.2"
objc2-core-media = "=0.3.2"
objc2-core-video = "=0.3.2"
objc2-foundation = "=0.3.2"
objc2-screen-capture-kit = "=0.3.2"
objc2-video-toolbox = "=0.3.2"
pipewire = "=0.8.0"
quinn = { version = "=0.11.12", default-features = false, features = ["runtime-tokio", "rustls-aws-lc-rs"] }
rcgen = "=0.13.2"
rustls = "=0.23.46"
serde_json = "=1.0.154"
thiserror = "=2.0.21"
tokio = { version = "=1.54.1", features = ["full"] }
tracing = "=0.1.44"
tracing-subscriber = { version = "=0.3.23", features = ["json", "env-filter"] }

[dev-dependencies]
half = "=2.7.1"
