[package]
name = "motor"
version = "0.1.0"
edition = "2021"
publish = false

[dependencies]
clap = "*"
dynasmrt = "*"

[dev-dependencies]
leb128 = "*"
byteorder = "*"
