[package]
name = "vizia"
version = "0.1.0"
edition = "2021"
publish = false

[dependencies]
hashbrown = "*"
fnv = "*"
image = "*"
morphorm = "*"
cssparser = "*"
unicode-segmentation = "*"
cosmic-text = "*"
femtovg = "*"
winit = "*"
copypasta = "*"
accesskit = "*"
accesskit_winit = "*"
