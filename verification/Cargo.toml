[package]
name = "llama_cpp_2"
version = "0.1.0"
edition = "2021"
publish = false

[dependencies]
llama-cpp-sys-2 = "*"
