[package]
name = "buildenv"
version = "0.1.0"
edition = "2021"
publish = false

[dependencies]
tinyjson = "2"
