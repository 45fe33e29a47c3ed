[package]
name = "spell_check"
version = "0.1.0"
edition = "2021"
publish = false

[dependencies]
clap = "4"
atty = "0.2"
