[package]
name = "twrite-core"
version = "0.1.0"
edition = "2021"
publish = false

[dependencies]
ropey = "1"
regex = "1"
pulldown-cmark = { version = "0.12", default-features = false }
unicode-width = "0.2"
thiserror = "2"
