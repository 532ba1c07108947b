[package]
name = "trace_tally"
version = "0.1.0"
edition = "2021"
publish = false

[dependencies]
indexmap = "2"
tracing = "0.1"
tracing-subscriber = "0.3"
