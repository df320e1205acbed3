[package]
name = "markdown_bib_processor"
version = "0.1.0"
edition = "2021"
publish = false

[dependencies]
hayagriva = "*"
levenshtein = "*"
clap = { version = "*", features = ["derive"] }
