[package]
name = "rp_display"
version = "0.1.0"
edition = "2021"
publish = false

[dependencies]
fugit = "0.3"
nb = "1"
embedded-hal = { version = "0.2", features = ["unproven"] }
display-interface = "0.4"
display-interface-spi = "0.4"
embedded-graphics = "0.7"
st7789 = "0.7"
rp2040-hal = "0.9"
pio = "0.2"
pio-proc = "0.2"
