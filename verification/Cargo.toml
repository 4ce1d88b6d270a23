[package]
name = "jetbrains_search_provider"
version = "0.1.0"
edition = "2021"
publish = false

[dependencies]
indexmap = "*"
elementtree = "*"
anyhow = "*"
clap = "4"
dirs = "*"
globwalk = "*"
log = "*"
env_logger = "*"
zbus = "1"
