[package]
name = "wfc_mapgen"
version = "0.1.0"
edition = "2021"
publish = false

[dependencies]
rand = "0.8"
pathfinding = "*"
image = "0.24"
macroquad = "0.3"
