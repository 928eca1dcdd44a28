[package]
name = "wesl_import"
version = "0.1.0"
edition = "2021"
publish = false

[dependencies]
itertools = "=0.15.0"
thiserror = "=2.0.21"
wgsl-parse = { version = "=0.4.0", features = ["imports", "attributes"] }
# held to the release that wgsl-parse 0.4.0 was published with
wgsl-types = "=0.4.0"
