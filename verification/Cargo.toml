[package]
name = "maze_game"
version = "0.1.0"
edition = "2021"
publish = false

[dependencies]
rand = "0.8"
yew = "0.19"
gloo-timers = "0.2"
wasm-logger = "0.2"
