[package]
name = "llvm_ir_tool"
version = "0.1.0"
edition = "2021"
publish = false

[dependencies]
llvm-ir = "*"
libloading = "*"
image = { version = "*", default-features = false, features = ["png"] }
