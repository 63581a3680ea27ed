[package]
name = "oxcb_media"
version = "0.1.0"
edition = "2021"
publish = false

[dependencies]
anyhow = "1"
arc-swap = "1"
clap = { version = "4", features = ["derive", "env"] }
cobs = { version = "=0.3.0", default-features = false }
crossbeam-channel = "0.5"
defmt = "1"
defmt-rtt = "1"
embassy-executor = "=0.10.0"
embassy-futures = "0.1"
embassy-rp = { version = "=0.10.0", features = ["rp2040", "time-driver", "critical-section-impl"] }
embassy-sync = "0.8"
embassy-time = "=0.5.1"
embassy-usb = "0.6"
embedded-graphics = "=0.8.2"
panic-probe = "1"
pipewire = "0.8"
postcard = { version = "=1.1.3", default-features = false }
realfft = "3"
sequential-storage = "=4.0.3"
serde = { version = "1", default-features = false, features = ["derive"] }
serialport = { version = "=4.10.1", default-features = false }
smart-leds = "=0.4.0"
ssd1306 = { version = "0.10", features = ["async"] }
static_cell = "2"
tracing = "0.1"
tracing-subscriber = { version = "0.3", features = ["env-filter"] }
