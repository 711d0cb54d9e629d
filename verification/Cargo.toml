[package]
name = "nickracker"
version = "0.1.0"
edition = "2021"
publish = false

[dependencies]
find-subimage = "*"
text_io = "0.1"
tesseract-plumbing = "0.6"
tesseract-sys = "0.5"
cstr = "0.2"
resize = "0.7"
rgb = "0.8"
