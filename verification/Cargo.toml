[package]
name = "git-forensic"
version = "0.1.0"
edition = "2021"
publish = false

[dependencies]
flate2 = "1"
sha1 = "0.10"
forensicnomicon = "*"
thiserror = "1"

[dev-dependencies]
forensicnomicon = "*"
