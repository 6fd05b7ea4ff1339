[package]
name = "fukuoka_c19"
version = "0.1.0"
edition = "2021"
publish = false
