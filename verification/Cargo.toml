[package]
name = "loranav"
version = "0.1.0"
edition = "2021"
publish = false

[dependencies]
lexical-core = "*"
chrono = { version = "*", default-features = false }
lora-phy = "*"
nmea = "*"
embedded-graphics = "*"
embassy-time = "*"
embassy-sync = "*"
embassy-executor = "*"
embassy-embedded-hal = "*"
embedded-hal-async = "*"
defmt = "*"
oled_async = "*"
display-interface-i2c = "*"
esp-hal = "*"
esp-println = "*"
esp-backtrace = "*"
esp-rtos = "*"
esp-bootloader-esp-idf = "*"
