[package]
name = "eta_graph"
version = "0.1.0"
edition = "2021"
publish = false

[dependencies]
eta-algorithms = "*"
firestorm = "*"
