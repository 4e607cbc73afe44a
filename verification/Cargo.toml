[package]
name = "docsearch"
version = "0.1.0"
edition = "2021"
publish = false

[dependencies]
rand = "0.8"
llm = "0.1.1"
pdf-extract = "0.7"
