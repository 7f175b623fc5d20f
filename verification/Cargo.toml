[package]
name = "road_network"
version = "0.1.0"
edition = "2021"
publish = false

[dependencies]
petgraph = "=0.5.1"
rand = "=0.7.3"
bevy = { version = "=0.2.1", default-features = false, features = ["render"] }
# Not used by this crate itself: bevy_asset 0.2.1 asks for notify "5.0.0-pre.2"
# and does not compile against the later 5.x releases that cargo would pick,
# so the version is held here.
notify = "=5.0.0-pre.2"
