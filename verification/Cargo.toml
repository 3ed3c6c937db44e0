[package]
name = "parser"
version = "0.1.0"
edition = "2021"
publish = false

[dependencies]
cstree = "=0.12.2"
pg_query = "=0.8.2"
regex-syntax = { version = "=0.8.11", features = ["unicode-perl"] }
