[package]
name = "obj2brs"
version = "0.1.0"
edition = "2021"
publish = false

[dependencies]
brickadia = "=0.1.32"
brdb = "=0.11.0"
tobj = "=4.0.5"
image = "=0.25.10"
uuid = "=0.8.2"
dirs = "=7.0.0"
thiserror = "=1.0.69"
