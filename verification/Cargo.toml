[package]
name = "rgraph"
version = "0.1.0"
edition = "2021"
publish = false

[dependencies]
smallvec = { version = "=1.16.4", features = ["const_generics"] }
uuid = { version = "=1.29.0", features = ["v7"] }
bincode = "=1.3.3"
clap = { version = "=4.6.7", features = ["derive"] }
tokio = { version = "=1.54.1", features = ["rt-multi-thread", "signal", "macros"] }
tracing = "=0.1.44"
num_cpus = "=1.17.0"
libc = "=0.2.191"
io-uring = "=0.7.15"
crossbeam-epoch = "=0.9.21"
