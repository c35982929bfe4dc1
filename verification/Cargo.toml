[package]
name = "aoc"
version = "0.1.0"
edition = "2021"
publish = false

[dependencies]
fxhash = "=0.2.1"
itertools = "=0.13.0"
priority-queue = "=2.7.0"
rayon = "=1.12.0"
winnow = "0.6"
