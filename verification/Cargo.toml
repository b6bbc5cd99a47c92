[package]
name = "spacetree"
version = "0.1.0"
edition = "2021"
publish = false

[dependencies]
serde = { version = "1", features = ["derive"] }
serde_json = "1"
rayon = "1"
crossbeam-channel = "0.5"
libc = "0.2"
log = "0.4"
futures-util = "0.3"
reqwest = { version = "0.12", default-features = false, features = ["stream"] }
windows-sys = { version = "*", features = ["Win32_Foundation", "Win32_Storage_FileSystem", "Win32_System_WindowsProgramming", "Win32_System_IO", "Win32_System_Ioctl", "Win32_Security", "Win32_System_Threading", "Win32_UI_Shell"] }
