[package]
name = "k210-flash"
version = "0.1.0"
edition = "2021"
publish = false

[dependencies]
bytes = "=0.5.6"
crc-any = "=2.5.1"
elf_rs = "=0.1.3"
sha2 = "=0.8.2"
clap = "=2.34.0"
console = "=0.15.11"
futures = "0.3"
indicatif = "=0.15.0"
log = { version = "0.4", features = ["std"] }
mio = { version = "=0.7.14", features = ["os-poll", "os-util"] }
nix = "=0.17.0"
pipefile = "=0.1.1"
tokio = { version = "=0.2.25", features = ["full"] }
tokio-serial = { version = "=4.3.3", default-features = false }
tokio-util = { version = "=0.3.1", features = ["codec"] }
