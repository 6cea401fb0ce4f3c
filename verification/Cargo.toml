[package]
name = "player"
version = "0.1.0"
edition = "2021"
publish = false

[dependencies]
stm32f1xx-hal = { version = "=0.7.0", features = ["stm32f103", "rt"] }
embedded-hal = "=0.2.7"
cortex-m = "=0.6.7"
cortex-m-rt = "=0.6.15"
alloc-cortex-m = "=0.4.4"
panic-semihosting = "=0.5.6"
