[package]
name = "mongo_utils"
version = "0.1.0"
edition = "2021"
publish = false

[dependencies]
mongodb = "2.8"
bson = "2"
tokio = { version = "1", features = ["macros", "rt-multi-thread", "sync"] }
futures-util = "0.3"
clap = "4"
dotenv = "0.15"
colored = "2"
serde_json = "1"
