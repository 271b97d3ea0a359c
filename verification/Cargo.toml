[package]
name = "gix_index_ref"
version = "0.1.0"
edition = "2021"
publish = false

[dependencies]
gix-hash = { version = "=0.28.1", features = ["sha1", "sha256"] }
gix-lock = "=26.0.1"
gix-error = "=0.5.2"
gix-object = "=0.66.1"
bstr = "=1.13.1"
thiserror = "=2.0.21"

[dev-dependencies]
proptest = "=1.12.0"
