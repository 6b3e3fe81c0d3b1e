[package]
name = "taskband"
version = "0.1.0"
edition = "2021"
publish = false

[dependencies]
json5 = "=0.4.1"
serde = { version = "=1.0.229", features = ["derive"] }
serde_json = "=1.0.154"
tiny_http = "=0.12.0"
getrandom = "=0.2.17"
windows = { version = "=0.58.0", features = ["Win32_Foundation", "Win32_Graphics_Gdi", "Win32_UI_WindowsAndMessaging", "Win32_Devices_Display", "Win32_UI_Shell", "Win32_System_Registry", "Win32_System_LibraryLoader"] }
