[package]
name = "august_build"
version = "0.1.0"
edition = "2021"
publish = false

[dependencies]
ariadne = "=0.6.0"
clap = { version = "=4.6.7", features = ["derive"] }
clap_complete = "=4.6.11"
comfy-table = "=8.0.1"
dircpy = "=0.3.21"
duct = "=1.1.2"
owo-colors = { version = "=4.4.0", features = ["supports-colors"] }
