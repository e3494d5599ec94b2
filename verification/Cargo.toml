[package]
name = "lightyear_server"
version = "0.1.0"
edition = "2021"
publish = false

[dependencies]
fastrand = "*"
bevy_ecs = "*"
naia-server-socket = "*"
