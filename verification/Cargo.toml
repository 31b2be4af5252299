[package]
name = "kirin"
version = "0.1.0"
edition = "2021"
publish = false

[dependencies]
anyhow = "=1.0.104"
clap = { version = "=4.6.7", features = ["derive"] }
gix = "=0.90.0"
kiutils_kicad = "=0.3.0"
kiutils_sexpr = "=0.1.1"
oxvg_ast = { version = "=0.0.9", features = ["roxmltree"] }
oxvg_optimiser = "=0.0.9"
