[package]
name = "mazewars"
version = "0.1.0"
edition = "2021"
publish = false

[dependencies]
rand = "*"
serde_json = "*"
renet = "*"
renet_netcode = "*"
local-ip-address = "*"
