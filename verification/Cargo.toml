[package]
name = "stackc"
version = "0.1.0"
edition = "2021"
publish = false

[dependencies]
inkwell = { version = "=0.2.0", features = ["llvm14-0"] }
# Named only for its feature: LLVM is linked as a shared library, since
# the static libraries of an LLVM that is installed from packages lack Polly.
llvm-sys = { version = "=140.1.3", features = ["prefer-dynamic"] }
