[package]
name = "ssd1306_bitbang"
version = "0.1.0"
edition = "2021"
publish = false

[dependencies]
esp-hal = { version = "0.22", features = ["esp32c3"] }
esp-backtrace = { version = "0.14", features = ["esp32c3", "panic-handler", "println"] }
