[package]
name = "oram"
version = "0.1.0"
edition = "2021"
publish = false

[dependencies]
bytemuck = "1"
getrandom = "0.3"
rand = "0.9"
rostl-primitives = "0.1.0-alpha9"
rostl-sort = "0.1.0-alpha9"
sha2 = "0.10"
