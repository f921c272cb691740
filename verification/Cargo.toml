[package]
name = "tracelog"
version = "0.1.0"
edition = "2021"
publish = false

[dependencies]
anyhow = "1"
byteorder = "1"
differential-dataflow = "0.12"
log = "0.4"
rdkafka = { version = "0.23", default-features = false }
regex = "1"
timely = "0.12"
tokio = { version = "1", features = ["macros", "rt", "sync", "time"] }
