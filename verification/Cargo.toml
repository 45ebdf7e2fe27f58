[package]
name = "variable_size_byte_writer"
version = "0.1.0"
edition = "2021"

[dependencies]
typenum = "*"
typenum_loops = "*"
