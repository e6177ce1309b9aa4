[package]
name = "replication"
version = "0.1.0"
edition = "2021"
publish = false

[dependencies]
specs = "*"
specs-physics = "*"
nalgebra = { version = "*", features = ["serde-serialize"] }
rmp-serde = "*"
serde = { version = "1", features = ["derive"] }
stdweb = "*"
fixedstep = "*"
log = "0.4"
pretty_env_logger = "*"
