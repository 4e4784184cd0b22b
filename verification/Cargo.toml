[package]
name = "putzen_cli"
version = "2.0.0"
edition = "2021"
publish = false

[dependencies]
argh = "*"
jwalk = "*"
dialoguer = "*"
remove_dir_all = "*"
