[package]
name = "jabba_lib"
version = "0.1.0"
edition = "2021"
publish = false

[dependencies]
cfg-if = "1"
clipboard-win = "4"
num-bigint = "0.4"
rand = "0.8"
shlex = "1"
which = "4"
