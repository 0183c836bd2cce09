[package]
name = "ball_physics"
version = "0.1.0"
edition = "2021"
publish = false

[dependencies]
bevy = { version = "=0.14.2", default-features = false, features = ["bevy_color"] }
bevy_app = "=0.14.2"
bevy_prng = { version = "=0.7.1", features = ["rand_chacha"] }
bevy_rand = "=0.7.1"
clap = { version = "=4.6.7", features = ["derive"] }
rand_core = "=0.6.4"
scarlet = "=1.2.0"
