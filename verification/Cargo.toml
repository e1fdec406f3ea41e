[package]
name = "patchfile"
version = "0.1.0"
edition = "2021"
publish = false

[dependencies]
diff = "*"
ansi_term = "*"
termcolor = "*"
