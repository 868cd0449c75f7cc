[package]
name = "test_data_generator"
version = "0.1.0"
edition = "2021"
publish = false

[dependencies]
rand = "0.8"
subprocess = "0.2"
