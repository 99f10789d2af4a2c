[package]
name = "marlowe_sexpr"
version = "0.1.0"
edition = "2021"
publish = false

[dependencies]
marlowe_lang = "=0.3.2"
ariadne = "=0.3.0"
unicode-ident = "=1.0.27"

[dev-dependencies]
chumsky = "=1.0.0-alpha.4"
