[package]
name = "standard_query"
version = "0.5.0"
edition = "2021"
publish = false

[dependencies]
quick-xml = "0.37"
regex = "1"
urlencoding = "2"
serde = { version = "1", features = ["derive"] }
serde_json = "1"
reqwest = { version = "0.12", default-features = false, features = ["json", "stream", "rustls-tls"] }
tokio = { version = "1", features = ["time", "macros", "rt-multi-thread"] }
futures-util = "0.3"
calamine = "*"
pdf = "*"
rust_xlsxwriter = "*"
zip = { version = "*", default-features = false, features = ["deflate"] }
rand = "*"
thiserror = "2"
