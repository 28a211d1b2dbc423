[package]
name = "themistocle"
version = "0.1.0"
edition = "2021"
publish = false

[dependencies]
cast = "=0.2.7"
pcap-file = "=0.10.0"
rust-ini = "=0.13.0"
rand = "=0.7.3"
lazy_static = "=1.4.0"
gtk = "=0.19.0"
gdk = "=0.19.0"
