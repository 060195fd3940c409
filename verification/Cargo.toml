[package]
name = "http-credential-broker"
version = "0.1.0"
edition = "2021"
publish = false

[dependencies]
http = "=1.5.0"
base64 = "=0.22.1"
percent-encoding = "=2.3.2"
bytes = "=1.12.1"
http-body-util = "=0.1.5"
hyper = { version = "=1.12.0", features = ["server", "http1"] }
aioduct = { version = "=0.2.6", features = ["tokio"] }
tokio = { version = "=1.54.1", features = ["net", "rt-multi-thread", "macros", "signal", "sync"] }
toml = "=1.1.8"
serde = { version = "=1.0.229", features = ["derive"] }
clap = { version = "=4.6.7", features = ["derive"] }
thiserror = "=2.0.21"
tracing = "=0.1.44"
tracing-subscriber = { version = "=0.3.23", features = ["env-filter", "fmt"] }
