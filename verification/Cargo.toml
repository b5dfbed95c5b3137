[package]
name = "minesolver"
version = "0.1.0"
edition = "2021"
publish = false

[dependencies]
smallvec = "=1.16.4"
malachite = { version = "=0.14.0", features = ["random"] }
rand = "=0.9.5"
itertools = "=0.14.0"
by_address = "=1.2.1"
ibig = "=0.3.6"
