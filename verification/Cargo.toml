[package]
name = "dbgen"
version = "0.1.0"
edition = "2021"
publish = false

[dependencies]
chrono = "=0.4.45"
anyhow = "=1.0.104"
futures = "=0.3.34"
hyper = { version = "=0.14.32", features = ["server", "http1", "tcp"] }
structopt = "=0.3.26"
tokio = { version = "=1.53.2", features = ["macros", "rt-multi-thread"] }
