[package]
name = "rsvp"
version = "0.1.0"
edition = "2021"
publish = false

[dependencies]
xxhash-rust = { version = "*", features = ["xxh3"] }
strsim = "*"
serde = { version = "1", features = ["derive"] }
serde_json = "1"
thiserror = "*"
anyhow = "1"
tokio = { version = "1", features = ["macros", "rt-multi-thread"] }
tracing = "0.1"
tracing-subscriber = { version = "0.3", features = ["fmt", "env-filter", "json"] }
aws_lambda_events = { version = "*", default-features = false, features = ["apigw"] }
lambda_runtime = "*"
aws-config = "1"
aws-sdk-s3 = "1"
aws-sdk-dynamodb = "1"

[dev-dependencies]
strsim = "*"
