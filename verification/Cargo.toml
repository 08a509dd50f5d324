[package]
name = "blitz_dom"
version = "0.1.0"
edition = "2021"
publish = false

[dependencies]
slotmap = "=1.1.1"
taffy = "=0.15.1"
stylo = "=0.23.0"
