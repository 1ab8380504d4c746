[package]
name = "mdr"
version = "0.1.0"
edition = "2021"
publish = false

[dependencies]
pulldown-cmark = "=0.13.6"
dark-light = "=3.0.0"
dioxus = { version = "=0.7.10", default-features = false, features = ["macro", "html", "signals", "hooks", "launch", "document"] }
rfd = { version = "=0.17.2", default-features = false, features = ["xdg-portal"] }
tokio = { version = "=1.54.1", features = ["fs", "time"] }
tracing-subscriber = { version = "=0.3.23", features = ["env-filter"] }
