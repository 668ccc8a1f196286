[package]
name = "proc_view"
version = "0.1.0"
edition = "2021"
publish = false

[dependencies]
fxhash = "=0.2.1"
unicode-segmentation = "1"
itertools = "0.10"
heim = { version = "0.0.11", default-features = false, features = ["sensors"] }
heim-common = "0.0.11"
sysinfo = "0.25"
