[package]
name = "ncd"
version = "0.1.0"
edition = "2021"
publish = false

[dependencies]
brotli = { version = "=9.0.0", features = ["portable-float"] }
ego-tree = "=0.11.1"
itertools = "=0.15.0"
plotly = "=0.14.1"
plotters = { version = "=0.3.7", default-features = false, features = ["evcxr", "svg_backend", "point_series"] }
rayon = "=1.12.0"
scraper = "=0.29.0"
urlencoding = "=2.1.3"
