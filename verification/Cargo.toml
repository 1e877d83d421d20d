[package]
name = "modula"
version = "0.1.0"
edition = "2021"
publish = false

[dependencies]
scip = "*"
protobuf = "3"
oxc_parser = "0.137"
oxc_allocator = "0.137"
oxc_ast = "0.137"
oxc_span = "0.137"
serde_json = "1"
anyhow = "1"
clap = { version = "4", features = ["derive"] }
walkdir = "2"
tempfile = "3"
zstd = "0.13"
flate2 = "1"
tar = "0.4"
csv = "1"
ureq = { version = "2", default-features = false, features = ["native-tls"] }
native-tls = "0.2"
libc = "0.2"
rayon = "1"
indicatif = { version = "0.17", features = ["rayon"] }
diesel = { version = "2", features = ["sqlite"] }
diesel_migrations = { version = "2", features = ["sqlite"] }
nalgebra = "0.33"
bhtsne = "0.5"
plotters = { version = "0.3", default-features = false, features = ["svg_backend", "all_elements", "all_series"] }
