[package]
name = "clash_core"
version = "0.1.0"
edition = "2021"
publish = false

[dependencies]
tokio = { version = "1", features = ["rt", "time", "macros", "sync"] }
hyper = { version = "0.14", features = ["client", "http1", "http2", "tcp"] }
http = "0.2"
futures = "0.3"
async-trait = "0.1"
tracing = "0.1"
boring = "3"
hyper-boring = "3"
