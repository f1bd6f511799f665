[package]
name = "staked_validators_cache"
version = "0.1.0"
edition = "2021"
publish = false

[dependencies]
log = "0.4"
lru = "0.7.7"
solana-clock = "3.0.0"
solana-epoch-schedule = "3.0.0"
solana-pubkey = "3.0.0"
