[package]
name = "type_rs"
version = "0.1.0"
edition = "2021"
publish = false

[dependencies]
rslint_parser = "0.3"
Inflector = "0.11"
log = "0.4"
structopt = "0.3"
