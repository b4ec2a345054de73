[package]
name = "wt_graphs"
version = "0.1.0"
edition = "2021"
publish = false

[dependencies]
qwt = "=0.4.0"
vers-vecs = "=1.10.2"

[dev-dependencies]
rand = "0.8"
