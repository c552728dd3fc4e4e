[package]
name = "table_top"
version = "0.1.0"
edition = "2021"
publish = false
