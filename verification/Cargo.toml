[package]
name = "unterm"
version = "0.1.0"
edition = "2021"
publish = false

[dependencies]
serde_json = "=1.0.154"
timeago = { version = "=0.6.1", features = ["isolang"] }
isolang = "=2.4.0"
sys-locale = "=0.3.2"
unicode-width = "=0.2.3"
unicode-script = "=0.5.9"
syntect = "=5.3.0"
tree-sitter = "=0.27.1"
tree-sitter-c-sharp = "=0.23.5"
tree-sitter-md = "=0.5.4"
streaming-iterator = "=0.1.9"
alacritty_terminal = "=0.26.0"
log = "=0.4.35"
env_logger = "=0.11.11"
glyphon = "=0.12.0"
wgpu = "=30.0.1"
pollster = "=1.0.1"
bytemuck = "=1.25.2"
egui = "*"
egui-wgpu = "*"
egui-winit = { version = "*", default-features = false, features = ["x11"] }
winit = { version = "*", default-features = false, features = ["x11", "rwh_06"] }
