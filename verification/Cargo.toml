[package]
name = "m4a_atmos_to_mp4_vid_fuse"
version = "1.0.10"
edition = "2021"
publish = false

[dependencies]
anyhow = "1"
clap = { version = "4", features = ["derive"] }
env_logger = "*"
fuser = "*"
libc = "0.2"
log = "0.4"
serde_json = "1"
sha2 = "*"
walkdir = "2"
