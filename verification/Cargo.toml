[package]
name = "number_words"
version = "0.1.0"
edition = "2021"
publish = false

[dependencies]
unicode-segmentation = "1"
encoding_rs = "0.8"
encoding_rs_io = "0.1"
num_cpus = "1"
