[package]
name = "rustprobe"
version = "0.1.0"
edition = "2021"
publish = false

[dependencies]
anyhow = "=1.0.104"
clap = { version = "=4.6.7", features = ["derive"] }
dap-rs = "=0.2.0"
embassy-embedded-hal = "=0.6.0"
embassy-executor = "*"
embassy-futures = "=0.1.2"
embassy-rp = { version = "=0.10.0", features = ["rp2040", "time-driver", "unstable-pac"] }
embassy-sync = "=0.8.0"
embassy-time = "=0.5.1"
embassy-usb = { version = "=0.6.0", default-features = false }
embedded-io-async = "=0.7.0"
fixed = "=1.31.0"
futures-lite = "=2.6.1"
heapless = { version = "=0.8.0", features = ["serde"] }
libm = "=0.2.16"
nusb = "=0.1.14"
postcard = { version = "=1.1.3", features = ["use-std"] }
sequential-storage = "=8.0.2"
serde = { version = "=1.0.229", features = ["derive"] }
serde_json = "=1.0.154"
static_cell = "2"
toml = "=0.8.23"
wasm-bindgen = "=0.2.130"
