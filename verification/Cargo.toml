[package]
name = "stickerbook"
version = "0.1.0"
edition = "2021"
publish = false

[dependencies]
dirs = "*"
gdk-pixbuf = "*"
gio = "*"
gtk4 = { version = "*", features = ["v4_12"] }
libadwaita = { version = "*", features = ["v1_4"] }
serde = { version = "*", features = ["derive"] }
serde_json = "*"
