[package]
name = "stage_alts"
version = "0.1.0"
edition = "2021"
publish = false

[dependencies]
hash40 = "=1.3.1"
smash-arc = { version = "=0.6.0", default-features = false, features = ["nozstd", "dir-listing"] }
prc-rs = "=1.6.1"
rand = "=0.10.3"
owo-colors = "=4.4.0"
log = "=0.4.34"
