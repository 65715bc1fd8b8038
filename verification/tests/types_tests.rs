use memechain::types::{Address, AntiRugSettings, Balance, Payload, Transaction};

#[test]
fn test_address_validation() {
    let valid_addr = Address::new("memechain1abcdefghijklmnopqrstuvwxyz123456".to_string());
    assert!(valid_addr.is_valid());

    let invalid_addr = Address::new("invalid".to_string());
    assert!(!invalid_addr.is_valid());
}

#[test]
fn test_address_wrong_prefix_right_length() {
    let addr = Address::new("memechain2abcdefghijklmnopqrstuvwxyz123456".to_string());
    assert!(!addr.is_valid());
    let addr2 = Address::new("memechain1abcdefghijklmnopqrstuvwxyz12345".to_string());
    assert!(!addr2.is_valid());
}

#[test]
fn test_transaction_creation() {
    let from = Address::new("memechain1alice".to_string());
    let to = Address::new("memechain1bob".to_string());
    let mut data = Payload::empty();
    data.amount = Some(100);

    let tx = Transaction::new(
        "meme".to_string(),
        "transfer".to_string(),
        from,
        Some(to),
        data,
        1_700_000_000,
    );

    assert_eq!(tx.module, "meme");
    assert_eq!(tx.action, "transfer");
}

#[test]
fn test_anti_rug_settings() {
    let settings = AntiRugSettings::default();
    assert_eq!(settings.max_wallet_percentage, 5);
    assert_eq!(settings.calculate_buy_tax(1000), 20);
    assert_eq!(settings.calculate_sell_tax(1000), 30);
}

#[test]
fn test_balance_operations() {
    let mut balance = Balance::new(
        Address::new("memechain1alice".to_string()),
        "MEME".to_string(),
        1000,
        1_700_000_000,
    );

    balance.add(500, 1_700_000_001);
    assert_eq!(balance.amount, 1500);

    balance.subtract(300, 1_700_000_002).unwrap();
    assert_eq!(balance.amount, 1200);

    let result = balance.subtract(2000, 1_700_000_003);
    assert!(result.is_err());
}

#[test]
fn test_balance_subtract_boundary() {
    let mut balance = Balance::new(
        Address::new("memechain1alice".to_string()),
        "MEME".to_string(),
        700,
        10,
    );
    // a debit of exactly the full amount succeeds and zeroes the balance
    balance.subtract(700, 20).unwrap();
    assert_eq!(balance.amount, 0);
    assert_eq!(balance.updated_at, 20);
    // one more unit fails and leaves the record untouched
    assert!(balance.subtract(1, 30).is_err());
    assert_eq!(balance.amount, 0);
    assert_eq!(balance.updated_at, 20);
}

#[test]
fn test_liquidity_lock_window() {
    let mut settings = AntiRugSettings::default();
    assert!(!settings.is_liquidity_locked(0));
    settings.lock_start_block = Some(100);
    settings.lock_duration_blocks = 50;
    assert!(settings.is_liquidity_locked(100));
    assert!(settings.is_liquidity_locked(149));
    assert!(!settings.is_liquidity_locked(150));
    assert!(settings.is_liquidity_locked(99));
}

#[test]
fn test_tax_no_drift_across_repeated_calls() {
    let settings = AntiRugSettings::default();
    let first = settings.calculate_buy_tax(12345);
    for _ in 0..10 {
        assert_eq!(settings.calculate_buy_tax(12345), first);
    }
    let s = settings.calculate_sell_tax(99999);
    assert_eq!(s, 99999 * 3 / 100);
}

#[test]
fn test_transaction_hash_is_hex() {
    let from = Address::new("memechain1alice".to_string());
    let tx = Transaction::new(
        "meme".to_string(),
        "transfer".to_string(),
        from,
        None,
        Payload::empty(),
        5,
    );
    let h = tx.hash();
    assert_eq!(h.len(), 64);
    assert!(h.chars().all(|c| c.is_ascii_hexdigit()));
    // same transaction, same hash
    let tx2 = Transaction::new(
        "meme".to_string(),
        "transfer".to_string(),
        Address::new("memechain1alice".to_string()),
        None,
        Payload::empty(),
        5,
    );
    assert_eq!(tx2.hash(), h);
}
