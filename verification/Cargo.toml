[package]
name = "soundcard_generator"
version = "0.1.0"
edition = "2021"
publish = false

[dependencies]
alsa = "*"
argparse = "*"
num-complex = "*"
