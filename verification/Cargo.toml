[package]
name = "scanflow"
version = "0.1.0"
edition = "2021"
publish = false

[dependencies]
iced-x86 = "1"
pelite = "*"
memflow = "0.1"
memflow-win32 = "0.1"
simplelog = "*"
