[package]
name = "tsar"
version = "0.1.0"
edition = "2021"
publish = false

[dependencies]
base64 = "0.22"
half = { version = "2", features = ["num-traits"] }
num-traits = "0.2"
object-pool = "0.5"
parking_lot = "0.12"
protobuf = "3"
rayon = "1"
sha1 = "0.10"
smallvec = "1"
thiserror = "1"
zfp-sys-cc = "*"
zip = { version = "0.6", default-features = false, features = ["deflate"] }
zstd = "0.13"

[dev-dependencies]
byteorder = "1"
