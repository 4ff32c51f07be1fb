[package]
name = "diskly"
version = "0.1.0"
edition = "2021"
publish = false

[dependencies]
indextree = "*"
ratatui = "*"
crossterm = "*"
color-eyre = "*"
jwalk = "*"
humansize = "*"
tui-piechart = "*"
time = "*"
directories = "*"
dunce = "*"
serde = { version = "1", features = ["derive"] }
toml = "*"
tracing = "*"
tracing-subscriber = { version = "*", features = ["env-filter", "chrono"] }
ansi_colours = "*"

[dev-dependencies]
tempfile = "*"
