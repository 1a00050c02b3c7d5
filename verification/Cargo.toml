[package]
name = "pupsy_render"
version = "0.1.0"
edition = "2021"
publish = false

[dependencies]
glam = "*"
gltf = "*"
image = "*"
data-url = "*"
num_cpus = "*"
workerpool = "*"
rand = "0.8"
