[package]
name = "virtio_spec"
version = "0.1.0"
edition = "2021"
publish = false

[dependencies]
endian-num = { version = "=0.2.0", features = ["linux-types", "zerocopy"] }
num_enum = { version = "=0.7.6", default-features = false }
volatile = "=0.6.1"
volatile-macro = "=0.6.0"
zerocopy = { version = "=0.8.63", default-features = false }
zerocopy-derive = "=0.8.63"
