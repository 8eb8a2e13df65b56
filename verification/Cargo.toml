[package]
name = "stackaroni"
version = "1.1.0"
edition = "2021"
publish = false

[dependencies]
anyhow = "1.0.104"
bytemuck = "1.25"
clap = { version = "4.6", features = ["derive"] }
eframe = { version = "0.36", default-features = false, features = ["default_fonts", "glow", "x11"] }
fs4 = "1.1"
libc = "0.2"
memmap2 = "0.9"
png = "0.18"
rayon = "1.12"
rfd = { version = "0.17", default-features = false, features = ["xdg-portal"] }
rustfft = "6.4"
sysinfo = { version = "0.40", default-features = false, features = ["system"] }
thiserror = "2"
tiff = "0.11"
windows-sys = { version = "0.61", features = ["Win32_Foundation", "Win32_System_Threading"] }

[dev-dependencies]
tempfile = "3"
