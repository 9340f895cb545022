[package]
name = "smeagol"
version = "0.1.0"
edition = "2021"
publish = false

[dependencies]
arrayvec = "=0.7.8"
btoi = "=0.5.0"
either = "=1.19.0"
fnv = "=1.0.7"
generational-arena = "=0.2.9"
hashbrown = "=0.17.1"
indexmap = "=2.14.2"
itertools = "=0.15.0"
rand = "=0.10.3"
png = "=0.18.1"
term_size = "=0.3.2"
braille = "=1.0.3"
lazy_static = "=1.5.1"
cursive = "=0.21.1"
nom = "4"
