[package]
name = "soundcheck"
version = "0.1.0"
edition = "2021"
publish = false

[dependencies]
chrono = "=0.4.45"
regex = "=1.13.1"
colorous = "=1.0.16"
cpal = "=0.18.2"
eframe = { version = "=0.37.0", default-features = false, features = ["default_fonts", "glow", "persistence", "x11"] }
rayon = "=1.12.0"
realfft = "=3.5.1"
rtrb = "=0.4.1"
rubato = "=5.0.1"
serde = { version = "=1.0.229", features = ["derive"] }
symphonia = { version = "=0.6.1", features = ["all"] }
libc = "=0.2.191"
windows-sys = { version = "=0.61.2", features = ["Win32_Foundation", "Win32_Storage_FileSystem"] }
