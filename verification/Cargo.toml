[package]
name = "systrument"
version = "0.1.0"
edition = "2021"
publish = false

[dependencies]
rand = "*"
bstr = "*"
clap = { version = "*", features = ["derive"] }
interprocess = "*"
jiff = "*"
miette = "*"
opentelemetry = "*"
opentelemetry-otlp = { version = "*", features = ["logs", "http-proto"] }
opentelemetry_sdk = "*"
patharg = "*"
perfetto_protos = "*"
protobuf = "*"
thiserror = "*"
uuid = { version = "*", features = ["v4"] }
