[package]
name = "todo"
version = "0.1.0"
edition = "2021"
publish = false

[dependencies]
rand = "0.8"
sled = "0.34"
serde = { version = "1", features = ["derive"] }
serde_json = "1"
structopt = "0.3"
tide = "0.16"
async-std = { version = "1", features = ["attributes"] }
reqwest = { version = "0.12", default-features = false, features = ["blocking", "json"] }
toml = "0.8"
envy = "0.4"
colored = "2"
ptree = "0.4"
termion = "1.5"
tui = { version = "0.19", default-features = false, features = ["termion"] }
tempfile = "3"
which = "6"
anyhow = "1"
