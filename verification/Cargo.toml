[package]
name = "endorphin"
version = "0.1.0"
edition = "2021"
publish = false

[dependencies]
crossbeam = "0.8"
hashbrown = { version = "0.12", features = ["raw"] }
parking_lot = "0.12"
rand = "0.8"
slotmap = "1"
