[package]
name = "web_audio_api"
version = "0.1.0"
edition = "2021"
publish = false

[dependencies]
cpal = "0.13"
crossbeam-channel = "0.5"
log = "0.4"
