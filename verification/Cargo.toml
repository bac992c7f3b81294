[package]
name = "phase_engine"
version = "0.1.0"
edition = "2021"
publish = false

[dependencies]
smallvec = { version = "1", features = ["union", "const_generics"] }
hashbrown = "0.15"
rustc-hash = "2"
indexmap = "2"
