[package]
name = "handlr"
version = "0.1.0"
edition = "2021"
publish = false

[dependencies]
mime = "0.3"
mime-db = "*"
clap = { version = "3", features = ["derive"] }
atty = "0.2"
colored = "2"
confy = "0.4"
serde = { version = "1", features = ["derive"] }
shlex = "1"
which = "4"
xdg = "2"
ascii_table = "*"
json = "*"
