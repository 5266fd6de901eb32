[package]
name = "hollywood"
version = "0.1.0"
edition = "2021"
publish = false

[dependencies]
num-rational = { version = "=0.4.2", default-features = false, features = ["std"] }
num-traits = "=0.2.19"
quick-xml = "=0.37.5"
serde_json = "=1.0.154"
thiserror = "=2.0.21"
clap = { version = "=4.6.7", features = ["derive", "env"] }
realfft = "=3.5.1"
tokio = { version = "=1.54.1", default-features = false, features = ["sync"] }
ffmpeg-next = "=7.1.0"
tracing = "0.1"
tracing-subscriber = { version = "0.3", features = ["env-filter", "fmt"] }
