[package]
name = "text_buffer"
version = "0.1.0"
edition = "2021"
publish = false

[dependencies]
xi-rope = "=0.3.0"
rustybuzz = "*"
owned_ttf_parser = "*"
