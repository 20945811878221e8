[package]
name = "rapidmesh_tet"
version = "0.1.0"
edition = "2021"
publish = false

[dependencies]
rustc-hash = "2"
geometry-predicates = "0.3"
