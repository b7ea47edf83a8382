[package]
name = "audiobars"
version = "0.1.0"
edition = "2021"
publish = false

[dependencies]
macroquad = "*"
rustfft = "*"
windowfunctions = "*"
libpulse-binding = "*"
libpulse-simple-binding = "*"
