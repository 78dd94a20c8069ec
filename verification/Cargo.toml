[package]
name = "meshdiff"
version = "0.1.0"
edition = "2021"
publish = false

[dependencies]
num-traits = "0.2"
backtrace = "0.3"
map_vec = "*"
textwrap = "*"
unicode-width = "*"
ansi-parser = "*"

[dev-dependencies]
rand = "0.8"
