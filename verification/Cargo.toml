[package]
name = "gettext_pot"
version = "0.1.0"
edition = "2021"
publish = false

[dependencies]
clap = { version = "=4.6.7", features = ["derive"] }
indicatif = "=0.18.6"
itertools = "=0.15.0"
pathdiff = "=0.2.3"
swc_common = { version = "=26.0.0", features = ["tty-emitter"] }
swc_ecma_ast = "=29.0.2"
swc_ecma_parser = "=46.1.2"
swc_ecma_visit = "=29.0.0"
walkdir = "=2.5.0"
