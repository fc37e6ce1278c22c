[package]
name = "tui-tree-widget"
version = "0.1.0"
edition = "2021"
publish = false

[dependencies]
tui = { version = "0.19", default-features = false }
unicode-segmentation = "1"
unicode-width = "0.1"
