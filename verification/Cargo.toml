[package]
name = "rusty_solver"
version = "0.1.0"
edition = "2021"
publish = false

[dependencies]
num_cpus = "1"
scoped_threadpool = "0.1"
piston = "*"
piston2d-graphics = "*"
pistoncore-glutin_window = "*"
piston2d-opengl_graphics = "*"
image = { version = "*", default-features = false }
palette = "*"
