[package]
name = "remove_old_arch_pkgs"
version = "0.1.0"
edition = "2021"
publish = false

[dependencies]
version-compare = "*"
chrono = "*"
