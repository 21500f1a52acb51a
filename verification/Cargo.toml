[package]
name = "rename_planner"
version = "0.1.0"
edition = "2021"
publish = false

[dependencies]
natord = "1"
time = "0.3"
