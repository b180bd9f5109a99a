[package]
name = "dgc"
version = "0.1.0"
edition = "2021"
publish = false

[dependencies]
aws-nitro-enclaves-cose = "=0.6.1"
ciborium = "=0.2.2"
openssl = "=0.10.81"
flate2 = "=1.1.10"
serde_json = "=1.0.151"
clap = "=4.6.7"

[dev-dependencies]
base45 = "=3.2.0"
serde_cbor = "=0.11.2"
