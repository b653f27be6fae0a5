[package]
name = "schema_catalog"
version = "0.1.0"
edition = "2021"
publish = false

[dependencies]
anyhow = "1"
defy = "*"
futures = "0.3"
gloo = "*"
serde = { version = "1", features = ["derive"] }
web-sys = { version = "0.3", features = ["HtmlInputElement"] }
yew = { version = "*", features = ["csr"] }
yew-hooks = "*"
