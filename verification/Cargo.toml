[package]
name = "timewars"
version = "0.1.0"
edition = "2021"
publish = false

[dependencies]
camera_controllers = "=0.36.0"
find_folder = "=0.3.0"
gfx = "0.7"
gfx_device_gl = "0.5"
piston = "=1.0.0"
pistoncore-sdl2_window = "=0.71.0"
rand = "=0.3.23"
time = "=0.1.45"
vecmath = "=1.0.0"
