[package]
name = "task_list"
version = "0.1.0"
edition = "2021"
publish = false

[dependencies]
slotmap = "1"
async-channel = "1"
glib = "0.10"
gio = "0.9"
gtk = "0.9"
