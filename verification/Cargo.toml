[package]
name = "luminol_fs"
version = "0.1.0"
edition = "2021"
publish = false

[dependencies]
rand = "=0.8.8"
thiserror = "=1.0.69"
camino = "=1.2.6"
itertools = "=0.12.1"
qp-trie = "=0.8.2"
bitflags = "=2.13.2"
slab = "0.4"
