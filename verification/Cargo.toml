[package]
name = "patch_pilers"
version = "0.1.0"
edition = "2021"
publish = false

[dependencies]
anyhow = "*"
clap = "*"
git2 = "*"
