[package]
name = "popemodem"
version = "0.1.0"
edition = "2021"
publish = false

[dependencies]
crc = "3"
thiserror = "1"
clap = { version = "4", features = ["derive"] }
cpal = "0.14"
rustfft = "6"
num = "0.4"
biquad = "0.4"
ringbuf = "0.3"
rand = "0.8"
hound = "3"
itertools-num = "0.1"
byteorder = "1"
