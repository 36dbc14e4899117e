[package]
name = "fluent31"
version = "0.1.0"
edition = "2021"
publish = false

[dependencies]
crc32fast = "=1.5.4"
crossbeam-skiplist = "=0.1.3"
io-uring = "=0.7.15"
libc = "=0.2.191"
parking_lot = "=0.12.5"
sha2 = "=0.10.9"
wasmtime = { version = "=43.0.2", default-features = false, features = ["cranelift", "runtime", "std"] }
