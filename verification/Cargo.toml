[package]
name = "vireo_mail"
version = "0.1.0"
edition = "2021"
publish = false

[dependencies]
mail-parser = "=0.10.2"
ureq = "=2.12.1"
dirs = "=6.0.0"
tracing = "=0.1.44"
gtk = "=0.19.0"
