[package]
name = "finder"
version = "0.1.0"
edition = "2021"
publish = false

[dependencies]
bitvec = "=1.1.1"
clap = "=4.6.7"
tokio = { version = "=1.54.1", features = ["rt-multi-thread", "macros", "fs"] }
windows = { version = "=0.58.0", features = ["Win32_Foundation", "Win32_Storage_FileSystem"] }
