[package]
name = "jit_debug"
version = "0.1.0"
edition = "2021"
publish = false

[dependencies]
byteorder = "1"
hash32 = "0.3"
libc = "0.2"
log = "0.4"

[dev-dependencies]
object = { version = "0.36", default-features = false, features = ["std", "read"] }
