[package]
name = "recoverar"
version = "0.1.0"
edition = "2021"
publish = false

[dependencies]
chrono = "0.4"
crc32fast = "1"
thiserror = "1"
clap = { version = "4", features = ["derive"] }
colored = "2"
indicatif = "0.17"
rayon = "1"
windows-sys = { version = "0.52", features = ["Win32_Foundation", "Win32_Storage_FileSystem", "Win32_System_IO"] }
