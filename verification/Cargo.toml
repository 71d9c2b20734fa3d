[package]
name = "ion_mail"
version = "0.1.0"
edition = "2021"
publish = false

[dependencies]
chrono = "=0.4.45"
clap = { version = "=4.6.7", features = ["derive"] }
dialoguer = "=0.12.0"
dirs = "=7.0.0"
email_address = "=0.2.9"
html2md = "=0.2.17"
imap = "=2.4.1"
keyring-core = "=1.0.1"
lettre = "=0.11.23"
mailparse = "=0.18.0"
markdown = "=1.0.0"
mime_guess = "=2.0.5"
minus = { version = "=5.8.0", features = ["dynamic_output"] }
native-tls = "=0.2.18"
oauth2 = { version = "=5.0.0", features = ["reqwest-blocking"] }
reqwest = { version = "=0.12.28", features = ["blocking"] }
serde = { version = "=1.0.229", features = ["derive"] }
serde_json = "=1.0.154"
shellexpand = "=3.1.2"
strip_markdown = "=0.2.0"
termimad = "=0.35.5"
toml = "=1.1.8"
windows-native-keyring-store = "=1.1.0"
zbus-secret-service-keyring-store = { version = "=1.0.1", features = ["crypto-rust"] }
