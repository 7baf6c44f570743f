[package]
name = "chatter-blocker"
version = "0.1.0"
edition = "2021"
publish = false

[dependencies]
anyhow = "1"
notify = "*"
serde = { version = "1", features = ["derive"] }
toml = "*"
windows = { version = "0.61", features = ["Win32_Foundation", "Win32_UI_WindowsAndMessaging", "Win32_System_Registry", "Win32_System_LibraryLoader", "Win32_System_Threading", "Win32_System_Console", "Win32_UI_Shell", "Win32_Graphics_Gdi"] }
