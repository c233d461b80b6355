[package]
name = "memserver"
version = "0.1.0"
edition = "2021"
publish = false

[dependencies]
sha2 = "*"
uuid = { version = "*", features = ["v4"] }
anyhow = "*"
serde = { version = "*", features = ["derive"] }
serde_json = "*"
sled = "*"
axum = "*"
tokio = { version = "*", features = ["full"] }
tower-http = { version = "*", features = ["trace"] }
clap = { version = "*", features = ["derive", "env"] }
dotenvy = "*"
tracing = "*"
tracing-subscriber = { version = "*", features = ["env-filter"] }
reqwest = { version = "*", default-features = false, features = ["json"] }
lopdf = "*"
pulldown-cmark = "*"
bytemuck = "*"
libc = "*"
rayon = "*"
petgraph = "*"
tantivy = "*"
