[package]
name = "process_stereo_image_csvs"
version = "0.1.0"
edition = "2021"
publish = false

[dependencies]
rand = "0.7"
csv = "1"
image = "0.23"
imageproc = "0.22"
ndarray = "0.15"
inline-python = "*"
