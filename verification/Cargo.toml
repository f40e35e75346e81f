[package]
name = "tsndt"
version = "0.1.0"
edition = "2021"
publish = false

[dependencies]
aya = "=0.14.0"
aya-ebpf = "0.1.1"
aya-log = "=0.3.0"
aya-log-ebpf = "0.1.0"
color-eyre = "=0.6.5"
crossterm = "=0.29.0"
directories = "=6.0.0"
network-interface = "=2.0.5"
network-types = "=0.2.0"
ratatui = "=0.30.2"
tokio = { version = "=1.54.1", features = ["macros", "rt-multi-thread"] }
tracing = "=0.1.44"
tracing-error = "=0.2.1"
tracing-subscriber = { version = "=0.3.23", features = ["env-filter"] }
