[package]
name = "wax_vs_ignore"
version = "0.1.0"
edition = "2021"
publish = false

[dependencies]
fast-glob = "=1.1.2"
globwalk = "=0.9.1"
ignore = "=0.4.33"
wax = "0.7"
