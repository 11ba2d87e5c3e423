[package]
name = "excel_to_csv"
version = "0.1.0"
edition = "2021"
publish = false

[dependencies]
calamine = "*"
