[package]
name = "effitask"
version = "0.1.0"
edition = "2021"
publish = false

[dependencies]
chrono = "0.4"
todo-txt = "*"
notify = "*"
async-std = "1"
log = "0.4"
