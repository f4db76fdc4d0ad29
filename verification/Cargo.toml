[package]
name = "argos"
version = "0.1.0"
edition = "2021"
publish = false

[dependencies]
async-trait = "*"
base64 = "0.22"
bytes = "1"
confy = "*"
if-addrs = "*"
openh264 = "*"
opus-rs = "*"
rtc = "0.20"
serde = { version = "1", features = ["derive"] }
serde_json = "1"
socket2 = "*"
tokio = { version = "1", features = ["rt-multi-thread", "time", "net", "io-util"] }
wasapi = "*"
webrtc = "0.20"
windows = { version = "*", features = ["Win32_Foundation", "Win32_System_Diagnostics_ToolHelp"] }
