[package]
name = "aur_depends"
version = "0.1.0"
edition = "2021"
publish = false

[dependencies]
alpm = "=3.0.5"
alpm-utils = { version = "=3.0.2", default-features = false, features = ["alpm"] }
raur = { version = "=7.0.0", default-features = false, features = ["trait"] }
srcinfo = "=1.3.1"
log = "=0.4.35"
