[package]
name = "nango_qa"
version = "0.1.0"
edition = "2021"
publish = false

[dependencies]
serde_json = "1"
tokio = { version = "1", features = ["macros", "rt"] }
lambda_runtime = "*"
lambda-apigateway-response = "*"
vaporetto = "*"
vaporetto_rules = "*"
zstd = "*"
