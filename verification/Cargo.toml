[package]
name = "employee_directory"
version = "0.1.0"
edition = "2021"
publish = false

[dependencies]
rand = "*"
