[package]
name = "mostr"
version = "0.1.0"
edition = "2021"
publish = false

[dependencies]
chrono = "0.4"
colog = "1"
colored = "2"
directories = "5"
env_logger = "0.11"
interim = { version = "0.1", features = ["chrono"] }
itertools = "0.13"
keyring = "3"
log = "0.4"
nostr-sdk = "0.42"
parse_datetime = "0.6"
regex = "1"
rustyline = "14"
serde_json = "1"
tokio = { version = "1", features = ["rt", "rt-multi-thread", "macros", "sync", "time"] }
whoami = "1"
