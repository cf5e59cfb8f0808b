[package]
name = "omni"
version = "0.1.0"
edition = "2021"
publish = false

[dependencies]
im = "15"
sha3 = "0.10"
const-hex = "1"
tree-sitter = "0.25"
tree-sitter-go = "0.23"
chrono = { version = "0.4", default-features = false, features = ["clock"] }
log = "0.4"
env_logger = "0.11"
ptree = { version = "0.5", default-features = false }
tokio = { version = "1", features = ["rt", "net", "macros"] }
hyper = { version = "1", features = ["server", "http1", "http2"] }
hyper-util = { version = "0.1", features = ["server-auto", "tokio"] }
http-body-util = "0.1"
bytes = "1"
socket2 = { version = "0.5", features = ["all"] }
bimap = "0.6"
bitflags = "2"
