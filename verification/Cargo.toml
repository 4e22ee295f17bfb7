[package]
name = "eudaemonsh"
version = "0.1.0"
edition = "2021"
publish = false

[dependencies]
getopts = "0.2"
rand = "0.9"
regex = "1"
rustyline = "*"
shvar = "*"
utf8path = "*"
