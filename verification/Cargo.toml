[package]
name = "audio_forensics"
version = "0.1.0"
edition = "2021"
publish = false

[dependencies]
hound = "3"
log = "0.4"
rayon = "1"
realfft = "3"
serde = { version = "1", features = ["derive"] }
symphonia = { version = "0.5", features = ["mp3"] }
tauri = { version = "2", default-features = false }
tauri-plugin-log = "2"
