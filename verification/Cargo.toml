[package]
name = "ireland_dino_finder"
version = "0.1.0"
edition = "2021"
publish = false

[dependencies]
hdf5-metno = "=0.15.1"
ndarray = "=0.17.2"
