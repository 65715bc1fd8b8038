use memechain::common::CommonModule;
use memechain::types::{Address, Payload, Transaction};

fn tx_with(action: &str, data: Payload) -> Transaction {
    Transaction::new(
        "common".to_string(),
        action.to_string(),
        Address::new("memechain1alice".to_string()),
        None,
        data,
        1_700_000_000,
    )
}

#[test]
fn test_validate_address() {
    let module = CommonModule::new();

    let valid_address = Address::new("memechain1abcdefghijklmnopqrstuvwxyz123456".to_string());
    assert!(module.validate_address(&valid_address).is_ok());

    let invalid_address = Address::new("invalid".to_string());
    assert!(module.validate_address(&invalid_address).is_err());
}

#[test]
fn test_calculate_hash() {
    let module = CommonModule::new();

    let data = b"Hello, World!";
    let hash = module.calculate_hash(data);

    assert_eq!(hash.len(), 64);
}

#[test]
fn test_calculate_hash_known_value() {
    let module = CommonModule::new();
    let hash = module.calculate_hash(b"Hello, World!");
    assert_eq!(
        hash,
        "dffd6021bb2bd5b0af676290809ec3a53191dd81c7f70a4b28688a362182986f"
    );
    let empty = module.calculate_hash(b"");
    assert_eq!(
        empty,
        "e3b0c44298fc1c149afbf4c8996fb92427ae41e4649b934ca495991b7852b855"
    );
}

#[test]
fn test_format_amount() {
    let module = CommonModule::new();

    assert_eq!(module.format_amount(1234567, 6), "1.234567");
    assert_eq!(module.format_amount(1000000, 6), "1");
    assert_eq!(module.format_amount(123456, 6), "0.123456");
}

#[test]
fn test_parse_amount() {
    let module = CommonModule::new();

    assert_eq!(module.parse_amount("1.234567", 6).unwrap(), 1234567);
    assert_eq!(module.parse_amount("1", 6).unwrap(), 1000000);
    assert_eq!(module.parse_amount("0.123456", 6).unwrap(), 123456);

    assert!(module.parse_amount("1.2345678", 6).is_err());
    assert!(module.parse_amount("invalid", 6).is_err());
}

#[test]
fn test_format_parse_round_trip() {
    let module = CommonModule::new();
    for v in [0u64, 1, 9, 10, 999999, 1000000, 1234567, 98765432109876] {
        let text = module.format_amount(v, 6);
        assert_eq!(module.parse_amount(&text, 6).unwrap(), v);
    }
}

#[test]
fn test_generate_keypair() {
    let module = CommonModule::new();

    let tx = tx_with("generate_keypair", Payload::empty());
    let result = module.process_transaction(&tx).unwrap();
    assert!(result.success);

    let data = result.data.unwrap();
    assert!(data.public_key.is_some());
    assert!(data.private_key.is_some());
    assert_eq!(data.public_key.unwrap().len(), 64);
    assert_eq!(data.private_key.unwrap().len(), 64);
}

#[test]
fn test_sign_and_verify_round_trip() {
    let module = CommonModule::new();
    let tx = tx_with("generate_keypair", Payload::empty());
    let result = module.process_transaction(&tx).unwrap();
    let data = result.data.unwrap();
    let sk = hex_to_bytes(&data.private_key.unwrap());
    let pk = hex_to_bytes(&data.public_key.unwrap());

    let message = b"a message to sign";
    let sig_hex = module.sign_data(message, &sk).unwrap();
    assert_eq!(sig_hex.len(), 128);
    let sig = hex_to_bytes(&sig_hex);
    assert_eq!(module.verify_signature(message, &sig, &pk).unwrap(), true);
    assert_eq!(module.verify_signature(b"another message", &sig, &pk).unwrap(), false);

    assert!(module.sign_data(message, &sk[..31]).is_err());
    assert!(module.verify_signature(message, &sig, &pk[..31]).is_err());
}

fn hex_to_bytes(s: &str) -> Vec<u8> {
    let cs: Vec<char> = s.chars().collect();
    let mut out = Vec::new();
    let mut i = 0;
    while i + 1 < cs.len() {
        let hi = cs[i].to_digit(16).unwrap() as u8;
        let lo = cs[i + 1].to_digit(16).unwrap() as u8;
        out.push(hi * 16 + lo);
        i += 2;
    }
    out
}

#[test]
fn test_generate_address_shape() {
    let module = CommonModule::new();
    let addr = module.generate_address(b"some public key bytes").unwrap();
    assert!(addr.as_str().starts_with("memechain1"));
    assert_eq!(addr.as_str().len(), 42);
    assert!(addr.is_valid());
}

#[test]
fn test_hash_data_action() {
    let module = CommonModule::new();
    let mut data = Payload::empty();
    data.data = Some("Hello, World!".to_string());
    let tx = tx_with("hash_data", data);
    let result = module.process_transaction(&tx).unwrap();
    let out = result.data.unwrap();
    assert_eq!(out.data.unwrap(), "Hello, World!");
    assert_eq!(
        out.hash.unwrap(),
        "dffd6021bb2bd5b0af676290809ec3a53191dd81c7f70a4b28688a362182986f"
    );
}

#[test]
fn test_validate_address_action() {
    let module = CommonModule::new();
    let mut data = Payload::empty();
    data.address = Some("memechain1abcdefghijklmnopqrstuvwxyz123456".to_string());
    let tx = tx_with("validate_address", data);
    let result = module.process_transaction(&tx).unwrap();
    assert_eq!(result.data.unwrap().is_valid, Some(true));

    let mut bad = Payload::empty();
    bad.address = Some("nope".to_string());
    let tx2 = tx_with("validate_address", bad);
    let result2 = module.process_transaction(&tx2).unwrap();
    assert_eq!(result2.data.unwrap().is_valid, Some(false));
}

#[test]
fn test_validate_amount_and_timestamp() {
    let module = CommonModule::new();
    assert!(module.validate_amount(1).is_ok());
    assert!(module.validate_amount(0).is_err());
    assert!(module.validate_timestamp(100, 50, 140).is_ok());
    assert!(module.validate_timestamp(100, 50, 151).is_err());
    assert!(module.encrypt_data(b"x", b"k").is_err());
    assert!(module.decrypt_data(b"x", b"k").is_err());
}

#[test]
fn test_get_timestamp_is_current_era() {
    let module = CommonModule::new();
    let t = module.get_timestamp();
    // after the epoch and before the year 3000
    assert!(t > 0);
    assert!(t < 32_503_680_000);
}
