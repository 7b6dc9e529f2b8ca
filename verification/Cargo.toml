[package]
name = "step_redox"
version = "0.1.0"
edition = "2021"
publish = false

[dependencies]
anyhow = "=1.0.104"
clap = { version = "=4.6.7", features = ["derive"] }
encoding_rs = "=0.8.44"
monstertruck-io = "*"
monstertruck-modeling = "*"
ruststep = "=0.4.0"
serde = { version = "=1.0.229", features = ["derive"] }
serde_json = "=1.0.154"
