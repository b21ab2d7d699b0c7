[package]
name = "camt052"
version = "0.1.0"
edition = "2021"
publish = false

[dependencies]
chrono = "=0.4.45"
roxmltree = "=0.21.1"
rust_decimal = "=1.43.0"
zip = "=8.6.0"
tree_magic_mini = { version = "=3.2.2", features = ["with-gpl-data"] }
iban_validate = "=5.0.1"
rusty-money = "=0.5.1"
clap = { version = "=4.6.7", features = ["derive"] }
log = "=0.4.34"
env_logger = "=0.11.11"
spreadsheet-ods = "=1.0.4"
icu_locale_core = "=2.3.0"
