[package]
name = "shimmer"
version = "0.1.0"
edition = "2021"
publish = false

[dependencies]
dashmap = "6"
libc = "0.2"
libc-print = "0.1"
redhook = "2"
ctor = "0.2"
thingbuf = "0.1"
serde = { version = "1", features = ["derive"] }
serde_json = "1"
linfa = "0.7"
linfa-clustering = "0.7"
ndarray = "0.15"
rand = "0.8"
rand_distr = "0.4"
rand_xoshiro = "0.6"
