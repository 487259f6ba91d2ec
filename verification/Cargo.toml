[package]
name = "rag_pipeline"
version = "0.1.0"
edition = "2021"
publish = false

[dependencies]
anyhow = "=1.0.104"
qdrant-client = "=1.19.0"
rig-core = { version = "=0.43.0", features = ["pdf", "reqwest"] }
rig-qdrant = "=0.43.0"
serde = { version = "=1.0.229", features = ["derive"] }
tokio = { version = "=1.53.2", features = ["macros", "rt-multi-thread"] }
tracing = "=0.1.44"
tracing-subscriber = "=0.3.23"
