[package]
name = "midi_mapper"
version = "0.1.0"
edition = "2021"
publish = false

[dev-dependencies]
midly = "*"
wmidi = "*"
