[package]
name = "cosmic_ext_applet_container_manager"
version = "0.1.0"
edition = "2021"
publish = false

[dependencies]
nix = { version = "0.30", features = ["fs", "signal", "process"] }
tokio = { version = "1", features = ["rt"] }
