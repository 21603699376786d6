[package]
name = "visiomatch"
version = "0.1.0"
edition = "2021"
publish = false

[dependencies]
opencv = { version = "=0.99.1", default-features = false, features = ["dnn", "geometry", "highgui", "imgcodecs", "imgproc", "videoio", "xobjdetect"] }
