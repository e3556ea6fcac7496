[package]
name = "brainfuck"
version = "0.1.0"
edition = "2021"
publish = false

[dependencies]
assembler = "*"
libc = "*"
clap = { version = "*", features = ["derive"] }
