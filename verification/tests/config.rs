use transaction_scheduler::config::{Config, Error, Nodes, Rpc, Verification};
use transaction_scheduler::text::decimal_text;
use transaction_scheduler::types::Address;

fn config(certifier: Option<&str>) -> Config {
    Config {
        rpc: Rpc {
            interface: "127.0.0.1".to_string(),
            port: 3001,
            server_threads: 4,
            processing_threads: 8,
            db_path: "./db".to_string(),
            submit_earlier: 3,
        },
        verification: Verification {
            chain_id: 42,
            max_gas: 1_000_000,
            min_gas_price: 4_000_000_000,
            min_schedule_block: 5,
            max_schedule_block: 100_000,
            min_schedule_seconds: 20,
            max_schedule_seconds: 8_640_000,
            strict_nonce: false,
            max_txs_per_sender: 2,
            certifier: certifier.map(|text| text.to_string()),
        },
        nodes: Nodes {
            blockchain: "http://localhost:8545".to_string(),
            transactions: vec!["http://localhost:8545".to_string()],
        },
    }
}

#[test]
fn options_are_taken_from_the_configuration() {
    let options = config(None).options().unwrap();
    assert_eq!(options.chain_id, 42);
    assert_eq!(options.max_gas, 1_000_000);
    assert_eq!(options.min_gas_price, 4_000_000_000);
    assert_eq!(options.min_schedule_block, 5);
    assert_eq!(options.max_schedule_block, 100_000);
    assert_eq!(options.min_schedule_seconds, 20);
    assert_eq!(options.max_schedule_seconds, 8_640_000);
    assert!(!options.strict_nonce);
    assert_eq!(options.max_txs_per_sender, 2);
    assert_eq!(options.certifier, None);
    assert_eq!(options.submit_earlier, 3);
    assert_eq!(options.rpc_listen_address, "127.0.0.1:3001");
    assert_eq!(options.rpc_server_threads, 4);
    assert_eq!(options.processing_threads, 8);
    assert_eq!(config(None).options_with(Some(Address([7; 20]))).certifier, Some(Address([7; 20])));
}

#[test]
fn the_certifier_is_an_address_in_hexadecimal_digits() {
    let options = config(Some("000102030405060708090a0b0c0d0e0f10111213")).options().unwrap();
    let mut bytes = [0u8; 20];
    for (i, byte) in bytes.iter_mut().enumerate() {
        *byte = i as u8;
    }
    assert_eq!(options.certifier, Some(Address(bytes)));
    let options = config(Some("FFfffFFFFFFFFFFFFFFFFFFFFFFFFFFFFFFFFF00")).options().unwrap();
    let mut bytes = [0xffu8; 20];
    bytes[19] = 0;
    assert_eq!(options.certifier, Some(Address(bytes)));
    for bad in ["", "00", "xyz", "000102030405060708090a0b0c0d0e0f1011121", "000102030405060708090a0b0c0d0e0f1011121314"] {
        assert_eq!(config(Some(bad)).options().unwrap_err(), Error::InvalidCertifier);
    }
}

#[test]
fn numbers_are_written_in_decimal_digits() {
    assert_eq!(decimal_text(0), "0");
    assert_eq!(decimal_text(7), "7");
    assert_eq!(decimal_text(10), "10");
    assert_eq!(decimal_text(65535), "65535");
    assert_eq!(decimal_text(1_000_000_007), "1000000007");
    assert_eq!(decimal_text(u64::MAX as u128), "18446744073709551615");
    assert_eq!(decimal_text(u128::MAX), "340282366920938463463374607431768211455");
}
