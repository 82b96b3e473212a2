[package]
name = "aggregation"
version = "0.1.0"
edition = "2021"
publish = false

[dependencies]
bytes = "=1.12.1"
commonware-actor = "=2026.9.0"
commonware-codec = "=2026.9.0"
commonware-codec-macros = "=2026.9.0"
commonware-cryptography = "=2026.9.0"
commonware-macros = "=2026.9.0"
commonware-macros-impl = "=2026.9.0"
commonware-p2p = "=2026.9.0"
commonware-parallel = "=2026.9.0"
commonware-resolver = "=2026.9.0"
commonware-runtime = "=2026.9.0"
commonware-runtime-macros = "=2026.9.0"
commonware-storage = "=2026.9.0"
commonware-utils = "=2026.9.0"
futures = "0.3"
rand_core = "=0.10.1"
thiserror = "2"
tracing = "0.1"
