[package]
name = "vtui"
version = "0.1.0"
edition = "2021"
publish = false

[dependencies]
slotmap = "*"
async-channel = "*"
generational-box = "*"
ratatui = "*"
crossterm = "*"
unicode-segmentation = "*"
unicode-width = "*"
thiserror = "*"
smol = "*"
flume = "*"
anyhow = "*"
