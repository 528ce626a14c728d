[package]
name = "clipboard_conf"
version = "0.1.0"
edition = "2021"
publish = false

[dependencies]
gdk = "0.12"
gio = "0.8"
gtk = "0.8"
