[package]
name = "microkv"
version = "0.1.0"
edition = "2021"
publish = false

[dependencies]
bincode = "1"
clap = "2"
dirs = "4"
indexmap = "1"
rpassword = "5"
secstr = "0.5"
serde = "1"
sodiumoxide = "0.2"
