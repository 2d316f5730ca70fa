[package]
name = "loft_net"
version = "0.1.0"
edition = "2021"
publish = false

[dependencies]
ed25519-dalek = "=2.2.0"
wasmtime = { version = "=36.0.20", default-features = false, features = ["cranelift", "runtime", "std"] }
rustls = { version = "=0.23.46", default-features = false, features = ["std", "ring", "tls12", "logging"] }
rustls-pemfile = "=2.2.0"
rustls-pki-types = "=1.15.1"
webpki-roots = "=1.0.10"
ureq = { version = "=2.12.1", default-features = false, features = ["tls"] }
russh = { version = "=0.65.0", default-features = false, features = ["ring"] }
tokio = { version = "=1.54.1", features = ["rt-multi-thread", "sync", "macros"] }
loft-ffi = "=0.1.2"
loft-ffi-macros = "=0.1.0"

[dev-dependencies]
wat = "=1.263.0"
rcgen = "=0.14.10"
