[package]
name = "markdown_elements"
version = "0.1.0"
edition = "2021"
publish = false

[dependencies]
regex = "=1.13.1"
leptos = { version = "=0.4.10", features = ["csr"] }
