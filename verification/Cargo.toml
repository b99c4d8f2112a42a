[package]
name = "paladocs"
version = "0.1.0"
edition = "2021"
publish = false

[dependencies]
serde_json = "=1.0.154"
unicode-width = "=0.2.3"
tiny-skia = "=0.11.4"
crossterm = "=0.29.0"
chrono = "=0.4.45"
ecow = "=0.2.6"
typst = "=0.15.1"
typst-layout = "=0.15.1"
typst-render = "=0.15.1"
typst-pdf = "=0.15.1"
typst-kit = { version = "=0.15.1", features = ["system-files", "system-downloader", "embedded-fonts", "scan-fonts"] }
