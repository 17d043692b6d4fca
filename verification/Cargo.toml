[package]
name = "rsudoku"
version = "0.1.0"
edition = "2021"
publish = false

[dependencies]
rand = "0.4"
termion = "1.5"
chan = "0.1"
chan-signal = "0.3"
clap = "2"
error-chain = "0.12"
itertools = "0.7"
