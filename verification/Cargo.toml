[package]
name = "deadcode"
version = "0.1.0"
edition = "2021"
publish = false
rust-version = "1.95"

[dependencies]
get-size2 = "=0.10.0"
ruff_linter = "=0.15.22"
ruff_python_ast = "=0.0.5"
ruff_source_file = "=0.0.5"
ruff_text_size = "=0.0.5"
ruff_python_parser = "=0.0.5"
