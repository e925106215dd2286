[package]
name = "csv_columns"
version = "0.1.0"
edition = "2021"
publish = false

[dependencies]
unicode-width = "0.2"
lsp-server = "0.7"
lsp-types = "0.95"
serde_json = "1"
zed_extension_api = "0.7.0"
