[package]
name = "math"
version = "0.1.0"
edition = "2021"
publish = false

[dependencies]
libc = "=0.2.191"
# Built without an LLVM installation: drop both features to link the compiler.
llvm-sys = { version = "=231.0.1", features = ["no-llvm-linking", "disable-alltargets-init"] }
nom = "=7.1.3"
quickcheck = { version = "=1.1.0", default-features = false }
