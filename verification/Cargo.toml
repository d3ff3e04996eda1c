[package]
name = "mermaid_parser"
version = "0.1.0"
edition = "2021"

[dependencies]
pest = "2"
thiserror = "=1.0.69"
