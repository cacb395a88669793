[package]
name = "rumble_rs"
version = "0.1.0"
edition = "2021"
publish = false

[dependencies]
embassy-executor = "=0.9.1"
embassy-net = { version = "=0.7.1", features = ["dhcpv4", "medium-ethernet", "tcp"] }
embassy-time = "=0.5.1"
embedded-graphics = "=0.8.2"
embedded-hal-bus = "=0.3.0"
embedded-io-async = "=0.6.1"
esp-alloc = "=0.9.0"
esp-bootloader-esp-idf = { version = "=0.4.0", features = ["esp32s3"] }
esp-hal = { version = "=1.0.0", features = ["esp32s3", "unstable"] }
esp-println = { version = "=0.16.1", features = ["esp32s3"] }
esp-radio = { version = "=0.17.0", features = ["esp32s3", "wifi", "esp-alloc", "unstable"] }
esp-rtos = { version = "=0.2.0", features = ["esp32s3", "embassy", "esp-radio", "esp-alloc"] }
mipidsi = "=0.9.0"
static_cell = "=2.1.1"
