[package]
name = "veryl_analysis"
version = "0.1.0"
edition = "2021"
publish = false

[dependencies]
bimap = "=0.6.3"
daggy = "=0.9.0"
fixedbitset = "=0.5.7"
log = "=0.4.35"
miette = "=7.6.0"
thiserror = "=2.0.21"
