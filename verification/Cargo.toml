[package]
name = "verlet_sim"
version = "0.1.0"
edition = "2021"
publish = false

[dependencies]
glium = "0.32"
winit_input_helper = "0.13"
nalgebra-glm = "0.18"
