[package]
name = "moc_cli"
version = "0.1.0"
edition = "2021"
publish = false

[dependencies]
moc = "*"
cdshealpix = "*"
structopt = "0.3"
