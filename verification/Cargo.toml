[package]
name = "graphql_context"
version = "0.1.0"
edition = "2021"
publish = false

[dependencies]
async-graphql-parser = "7"
async-graphql-value = "7"
fnv = "1"
http = "1"
indexmap = "2"
serde = { version = "1", features = ["derive"] }
