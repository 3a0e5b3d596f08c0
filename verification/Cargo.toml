[package]
name = "ocelot"
version = "0.1.0"
edition = "2021"
publish = false

[dependencies]
bytesize = { version = "*", features = ["serde"] }
clap = { version = "*", features = ["derive", "env"] }
clap_complete = "*"
humantime-serde = "*"
nix = { version = "*", features = ["signal", "mount"] }
petgraph = "*"
procfs = "*"
resolve-path = "*"
serde = { version = "*", features = ["derive"] }
serde_json = "*"
serde_with = "*"
serde_yaml = "*"
snafu = "*"
tracing = "*"
tracing-subscriber = { version = "*", features = ["env-filter"] }

[dev-dependencies]
tempfile = "*"
