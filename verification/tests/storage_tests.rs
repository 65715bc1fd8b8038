use memechain::storage::{Backend, MemBackend, SledBackend, Storage, StorageBackend};
use memechain::types::{Address, AntiRugSettings, Balance, Block, Collection, Nft, Payload, Token, Transaction, TransactionResult};

fn mem_storage() -> Storage {
    Storage::new(Backend::Mem(MemBackend::new()))
}

fn sled_storage() -> Storage {
    let db = sled::Config::new().temporary(true).open().unwrap();
    Storage::new(Backend::Sled(SledBackend::from_db(db)))
}

#[test]
fn test_storage_operations() {
    let mut storage = mem_storage();
    storage.initialize().unwrap();

    let token = Token::new(
        "TEST".to_string(),
        "Test Token".to_string(),
        1000000,
        Address::new("memechain1alice".to_string()),
        AntiRugSettings::default(),
        1_700_000_000,
    );

    storage.store_token(&token).unwrap();
    let retrieved = storage.get_token("TEST").unwrap();
    assert!(retrieved.is_some());
    assert_eq!(retrieved.unwrap().symbol, "TEST");
}

#[test]
fn test_sled_backend_operations() {
    let db = sled::Config::new().temporary(true).open().unwrap();
    let mut backend = Backend::Sled(SledBackend::from_db(db));
    backend.initialize().unwrap();

    backend.set("test_key".to_string(), b"test_value".to_vec()).unwrap();
    let value = backend.get(&"test_key".to_string()).unwrap();
    assert_eq!(value, Some(b"test_value".to_vec()));

    assert!(backend.exists_key(&"test_key".to_string()).unwrap());
    assert!(!backend.exists_key(&"nonexistent".to_string()).unwrap());

    backend.delete(&"test_key".to_string()).unwrap();
    assert!(!backend.exists_key(&"test_key".to_string()).unwrap());
}

#[test]
fn test_mem_backend_operations() {
    let mut backend = Backend::Mem(MemBackend::new());
    backend.initialize().unwrap();
    backend.set("k1".to_string(), vec![1, 2, 3]).unwrap();
    backend.set("k1".to_string(), vec![4, 5]).unwrap();
    assert_eq!(backend.get(&"k1".to_string()).unwrap(), Some(vec![4, 5]));
    backend.delete(&"k1".to_string()).unwrap();
    assert_eq!(backend.get(&"k1".to_string()).unwrap(), None);
}

#[test]
fn test_prefix_scan_and_batch() {
    let db = sled::Config::new().temporary(true).open().unwrap();
    let mut backend = Backend::Sled(SledBackend::from_db(db));
    backend
        .batch_write(vec![
            ("token:AAA".to_string(), Some(vec![1])),
            ("token:BBB".to_string(), Some(vec![2])),
            ("nft:xyz".to_string(), Some(vec![3])),
        ])
        .unwrap();
    let mut keys = backend.get_keys_with_prefix(&"token:".to_string()).unwrap();
    keys.sort();
    assert_eq!(keys, vec!["token:AAA".to_string(), "token:BBB".to_string()]);

    // a batched delete is applied with the puts, atomically
    backend
        .batch_write(vec![
            ("token:AAA".to_string(), None),
            ("token:CCC".to_string(), Some(vec![9])),
        ])
        .unwrap();
    let mut keys2 = backend.get_keys_with_prefix(&"token:".to_string()).unwrap();
    keys2.sort();
    assert_eq!(keys2, vec!["token:BBB".to_string(), "token:CCC".to_string()]);
}

#[test]
fn test_balance_round_trip_on_sled() {
    let mut storage = sled_storage();
    let balance = Balance::new(
        Address::new("memechain1alice".to_string()),
        "TEST".to_string(),
        424242,
        1_700_000_123,
    );
    storage.store_balance(&balance).unwrap();
    let back = storage
        .get_balance(&Address::new("memechain1alice".to_string()), "TEST")
        .unwrap()
        .unwrap();
    assert_eq!(back.amount, 424242);
    assert_eq!(back.updated_at, 1_700_000_123);
    assert_eq!(back.token, "TEST");
    assert_eq!(back.address.as_str(), "memechain1alice");
}

#[test]
fn test_token_round_trip_non_ascii() {
    let mut storage = mem_storage();
    let mut anti = AntiRugSettings::default();
    anti.lock_start_block = Some(7);
    let token = Token::new(
        "T\u{00c9}ST".to_string(),
        "caf\u{00e9} token \u{2764}".to_string(),
        5,
        Address::new("memechain1alice".to_string()),
        anti,
        -3,
    );
    storage.store_token(&token).unwrap();
    let back = storage.get_token("T\u{00c9}ST").unwrap().unwrap();
    assert_eq!(back.name, "caf\u{00e9} token \u{2764}");
    assert_eq!(back.created_at, -3);
    assert_eq!(back.anti_rug.lock_start_block, Some(7));
}

#[test]
fn test_nft_and_collection_round_trip() {
    let mut storage = mem_storage();
    let collection = Collection::new(
        "col-1".to_string(),
        "Art".to_string(),
        Address::new("memechain1alice".to_string()),
        "a description".to_string(),
        11,
    );
    storage.store_collection(&collection).unwrap();
    let c = storage.get_collection("col-1").unwrap().unwrap();
    assert_eq!(c.name, "Art");
    assert_eq!(c.description, "a description");

    let nft = Nft::new(
        "nft-1".to_string(),
        "col-1".to_string(),
        "Mona".to_string(),
        Address::new("memechain1alice".to_string()),
        Some("{\"rarity\":\"legendary\"}".to_string()),
        12,
    );
    storage.store_nft(&nft).unwrap();
    let n = storage.get_nft("nft-1").unwrap().unwrap();
    assert_eq!(n.metadata, Some("{\"rarity\":\"legendary\"}".to_string()));
    assert_eq!(n.owner.as_str(), "memechain1alice");

    storage.delete_nft("nft-1").unwrap();
    assert!(storage.get_nft("nft-1").unwrap().is_none());
}

#[test]
fn test_block_round_trip() {
    let mut storage = sled_storage();
    let mut data = Payload::empty();
    data.symbol = Some("TEST".to_string());
    data.supply = Some(1_000_000);
    let tx = Transaction::new(
        "meme".to_string(),
        "create_token".to_string(),
        Address::new("memechain1alice".to_string()),
        Some(Address::new("memechain1bob".to_string())),
        data,
        77,
    );
    let results = vec![
        TransactionResult::success(None),
        TransactionResult::failure("it failed".to_string()),
    ];
    let block = Block::new(9, vec![tx.clone(), tx], results, "prev".to_string(), 1234);
    storage.store_block(&block).unwrap();
    let back = storage.get_block(9).unwrap().unwrap();
    assert_eq!(back.height, 9);
    assert_eq!(back.timestamp, 1234);
    assert_eq!(back.previous_hash, "prev");
    assert_eq!(back.transactions.len(), 2);
    assert_eq!(back.results.len(), 2);
    assert_eq!(back.transactions[0].data.symbol, Some("TEST".to_string()));
    assert_eq!(back.transactions[0].data.supply, Some(1_000_000));
    assert!(back.results[0].success);
    assert!(!back.results[1].success);
    assert_eq!(back.results[1].error, Some("it failed".to_string()));

    assert!(storage.get_block(10).unwrap().is_none());
}

#[test]
fn test_get_all_listings() {
    let mut storage = mem_storage();
    for (sym, supply) in [("AAA", 1u64), ("BBB", 2u64)] {
        let token = Token::new(
            sym.to_string(),
            sym.to_string(),
            supply,
            Address::new("memechain1alice".to_string()),
            AntiRugSettings::default(),
            0,
        );
        storage.store_token(&token).unwrap();
    }
    let tokens = storage.get_all_tokens().unwrap();
    assert_eq!(tokens.len(), 2);
    let mut syms: Vec<String> = tokens.iter().map(|t| t.symbol.clone()).collect();
    syms.sort();
    assert_eq!(syms, vec!["AAA".to_string(), "BBB".to_string()]);
}

#[test]
fn test_update_balance() {
    let mut storage = mem_storage();
    let alice = Address::new("memechain1alice".to_string());
    storage.update_balance(&alice, "TEST", 100, 1).unwrap();
    assert_eq!(storage.get_balance(&alice, "TEST").unwrap().unwrap().amount, 100);
    storage.update_balance(&alice, "TEST", -30, 2).unwrap();
    assert_eq!(storage.get_balance(&alice, "TEST").unwrap().unwrap().amount, 70);
    assert!(storage.update_balance(&alice, "TEST", -71, 3).is_err());
    assert!(storage.update_balance(&alice, "OTHER", -1, 4).is_err());
}
