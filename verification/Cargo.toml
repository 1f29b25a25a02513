[package]
name = "clubgg_table_arranger"
version = "0.1.0"
edition = "2021"
publish = false

[dependencies]
crossbeam-channel = "0.5.17"
eframe = { version = "0.37.0", default-features = false, features = ["glow", "default_fonts"] }
global-hotkey = "0.9.0"
log = "0.4.35"
serde = { version = "1.0.229", features = ["derive"] }
serde_json = "1.0.154"
thiserror = "2.0.21"
tray-icon = { version = "0.26.1", default-features = false }
windows = { version = "*", features = ["Win32_Foundation", "Win32_Graphics_Dwm", "Win32_Graphics_Gdi", "Win32_System_Diagnostics_ToolHelp", "Win32_System_SystemServices", "Win32_System_Threading", "Win32_UI_Accessibility", "Win32_UI_HiDpi", "Win32_UI_WindowsAndMessaging", "Win32_Security"] }
