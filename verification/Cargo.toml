[package]
name = "pmd_code_table"
version = "0.1.0"
edition = "2021"
publish = false

[dependencies]
binread = "*"
pmd_sir0 = "*"
thiserror = "*"
