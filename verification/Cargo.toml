[package]
name = "irontraffic_http"
version = "0.1.0"
edition = "2021"
publish = false

[dependencies]
bytes = "1"
memchr = "2"
smallvec = "1"
