[package]
name = "udp2p"
version = "0.1.0"
edition = "2021"

[dependencies]
hex = "=0.4.3"
rand = "=0.8.8"
ritelinked = "=0.3.2"
sha256 = "=1.6.0"
