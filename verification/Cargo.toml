[package]
name = "project_asset"
version = "0.1.0"
edition = "2021"
publish = false

[dependencies]
anyhow = "1"
ra_ap_syntax = "<=0.0.310"
walkdir = "2"
