[package]
name = "git_submerge"
version = "0.5.0"
edition = "2021"
publish = false

[dependencies]
git2 = { version = "*", default-features = false }
clap = "*"
