[package]
name = "sugg"
version = "0.1.0"
edition = "2021"
publish = false

[dependencies]
icu = "=2.4.0"
serde = { version = "=1.0.229", features = ["derive"] }
serde_json = "=1.0.154"
console = "=0.16.6"
lexopt = "=0.3.2"
rkyv = "=0.8.18"
memmap2 = "=0.9.12"
anyhow = "=1.0.104"
chrono = "=0.4.45"
dirs-next = "=2.0.0"
sys-locale = "=0.3.2"
tempfile = "=3.27.0"
tokio = { version = "=1.54.1", features = ["rt", "rt-multi-thread", "macros", "fs", "process", "sync", "time"] }
rquickjs = { version = "=0.14.0", features = ["futures", "loader"] }
oxc = { version = "=0.143.0", features = ["semantic", "ast_visit"] }
clap = { version = "=4.6.7", features = ["derive"] }
indicatif = "=0.18.6"
include_dir = "=0.7.4"
reqwest = { version = "=0.12.28", default-features = false, features = ["rustls-tls"] }
self-replace = "=1.5.1"
notify-debouncer-mini = "=0.7.0"
wasm-bindgen = "=0.2.130"
serde-wasm-bindgen = "=0.6.5"
