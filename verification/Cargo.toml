[package]
name = "redis_top"
version = "0.1.0"
edition = "2021"
publish = false

[dependencies]
clap = "2"
etherparse = "0.9"
pcap = "*"
