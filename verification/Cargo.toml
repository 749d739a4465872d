[package]
name = "silicon_trust"
version = "0.1.0"
edition = "2021"
publish = false

[dependencies]
argon2 = "0.5"
blake3 = "1"
chacha20poly1305 = "0.10"
sha3 = "0.10"
zeroize = "1"
clap = { version = "4", features = ["derive"] }
rand = "0.8"
serde = { version = "1", features = ["derive"] }
serde_json = "1"
raw-cpuid = "11"
winreg = "0.52"
windows = { version = "0.58", features = ["Win32_Foundation", "Win32_Security", "Win32_NetworkManagement_IpHelper", "Win32_NetworkManagement_Ndis", "Win32_Networking_WinSock", "Win32_Storage_FileSystem", "Win32_System_IO", "Win32_System_Ioctl", "Win32_System_SystemInformation"] }
