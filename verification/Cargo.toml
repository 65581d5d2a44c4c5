[package]
name = "arraystring"
version = "0.1.0"
edition = "2021"
publish = false

[dependencies]
generic-array = "0.14"
typenum = "1"
serde = "1"
diesel = "1.4"
