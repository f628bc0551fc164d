[package]
name = "waiting_zones"
version = "0.1.0"
edition = "2021"
publish = false

[dependencies]
anstream = "=1.0.0"
anstyle = "=1.0.14"
anyhow = "=1.0.104"
clap = { version = "=4.6.7", features = ["derive"] }
geo = "=0.33.1"
geojson = "=1.0.0"
i_overlay = "=4.5.2"
proj4rs = "=0.3.0"
serde_json = "=1.0.154"
sumo-types = { version = "=0.3.0", features = ["additional", "write"] }
