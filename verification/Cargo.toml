[package]
name = "socketio"
version = "0.1.0"
edition = "2021"
publish = false

[dependencies]
engine-io = "*"
iron = "*"
serde = "*"
serde_json = "*"
