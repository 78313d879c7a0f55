[package]
name = "transaction_scheduler"
version = "0.1.0"
edition = "2021"
publish = false

[dependencies]
byteorder = "=1.5.0"
time = "=0.1.45"
ethcore-bigint = "=0.2.1"
rlp = "=0.6.1"
futures = { version = "=0.3.34", features = ["compat"] }
futures-cpupool = "=0.1.8"
jsonrpc-core = "=18.0.0"
jsonrpc-http-server = "=18.0.0"
web3 = { version = "=0.19.0", default-features = false, features = ["http", "ipc-tokio", "signing"] }
parking_lot = "=0.12.5"
log = "=0.4.34"
env_logger = "=0.11.11"
docopt = "=1.1.1"
serde = { version = "=1.0.229", features = ["derive"] }
serde_derive = "=1.0.229"
serde_json = "=1.0.154"
toml = "=1.1.8"
rustc-hex = "=2.1.0"
error-chain = "=0.12.4"
