[package]
name = "mt_dom"
version = "0.1.0"
edition = "2021"
publish = false

[dependencies]
indexmap = "2"
longest-increasing-subsequence = "0.1"
