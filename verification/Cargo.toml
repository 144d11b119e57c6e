[package]
name = "beetle"
version = "0.1.0"
edition = "2021"
publish = false

[dependencies]
crc = "*"
tantivy = "*"
ignore = "*"
dunce = "*"
rayon = "*"
bpaf = "*"
