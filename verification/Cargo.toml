[package]
name = "utdnsmasq"
version = "0.1.0"
edition = "2021"
publish = false

[dependencies]
rand = "0.8"
regex = "1"
hostname = "0.4"
lazy_static = "1"
thiserror = "1"
chrono = "0.4"
clap = { version = "4", features = ["derive"] }
colored = "2"
daemonize = "0.5"
libc = "0.2"
mio = { version = "0.8", features = ["os-poll", "os-ext"] }
nix = { version = "0.29", features = ["signal", "user", "fs"] }
pnet = "0.34"
pnet_datalink = "0.34"
signal-hook = "0.3"
socket2 = { version = "0.5", features = ["all"] }
tklog = "*"
users = "0.11"
