[package]
name = "squirrel"
version = "0.1.0"
edition = "2021"
publish = false

[dependencies]
getopts = "0.2"
glob = "0.3"
json = "0.12"
tar = "0.4"
ureq = "2"
