[package]
name = "moss"
version = "0.1.0"
edition = "2021"
publish = false

[dependencies]
url = "2"
sha2 = "0.10"
hex = "0.4"
serde = { version = "1", features = ["derive"] }
serde_yaml = "0.9"
clap = "4"
chrono = "0.4"
nix = { version = "0.29", features = ["fs", "user"] }
fs-err = "2"
thiserror = "1"
diesel = { version = "2", features = ["sqlite", "returning_clauses_for_sqlite_3_35"] }
diesel_migrations = "2"
libsqlite3-sys = { version = "0.30", features = ["bundled"] }
