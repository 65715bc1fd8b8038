use memechain::config::{Config, GenesisConfig};
use memechain::error::{MemeChainError, ModuleError, NftError};
use memechain::node::MemeChainApp;
use memechain::storage::Storage;
use memechain::types::{Address, Payload, Transaction};

const NOW: i64 = 1_700_000_000;

const ALICE: &str = "memechain1abcdefghijklmnopqrstuvwxyz123456";
const BOB: &str = "memechain1bbcdefghijklmnopqrstuvwxyz123456";
const CAROL: &str = "memechain1cbcdefghijklmnopqrstuvwxyz123456";

fn signed_tx(module: &str, action: &str, from: &str, to: Option<&str>, data: Payload, now: i64) -> Transaction {
    let mut tx = Transaction::new(
        module.to_string(),
        action.to_string(),
        Address::new(from.to_string()),
        to.map(|a| Address::new(a.to_string())),
        data,
        now,
    );
    tx.sign("k").unwrap();
    tx
}

fn new_app() -> MemeChainApp {
    MemeChainApp::new(Config::default(), Storage::new_in_memory())
}

fn create_token_data() -> Payload {
    let mut data = Payload::empty();
    data.name = Some("Test Token".to_string());
    data.symbol = Some("TEST".to_string());
    data.supply = Some(1_000_000);
    data
}

#[test]
fn test_app_creation() {
    let app = new_app();
    assert_eq!(app.block_height(), 0);
    assert_eq!(app.tx_pool_size(), 0);
    assert!(app.initialize_storage().is_ok());
}

#[test]
fn test_block_creation() {
    let mut app = new_app();
    let block = app.create_block(NOW);
    assert!(block.is_ok());
    let b = block.unwrap();
    assert_eq!(b.height, 1);
    assert_eq!(app.block_height(), 1);
    assert!(b.transactions.is_empty());
    assert!(b.results.is_empty());
    assert_eq!(b.hash, "");
    assert_eq!(b.previous_hash, "");
}

#[test]
fn test_pipeline_rejects_expired_unsigned_and_malformed() {
    let mut app = new_app();

    // expired: older than block_time x 10 seconds
    let old = signed_tx("meme", "create_token", ALICE, None, create_token_data(), NOW - 61);
    assert!(app.process_transaction(&old, NOW).is_err());

    // empty signature
    let unsigned = Transaction::new(
        "meme".to_string(),
        "create_token".to_string(),
        Address::new(ALICE.to_string()),
        None,
        create_token_data(),
        NOW,
    );
    assert!(app.process_transaction(&unsigned, NOW).is_err());

    // malformed sender address
    let bad_from = signed_tx("meme", "create_token", "memechain1short", None, create_token_data(), NOW);
    assert!(app.process_transaction(&bad_from, NOW).is_err());

    // unknown module: this passes the cool-down check (stamping its
    // sender) and fails at dispatch
    let bad_module = signed_tx("other", "create_token", BOB, None, create_token_data(), NOW);
    assert!(app.process_transaction(&bad_module, NOW).is_err());

    // a well-formed submission passes
    let good = signed_tx("meme", "create_token", ALICE, None, create_token_data(), NOW);
    let result = app.process_transaction(&good, NOW).unwrap();
    assert!(result.success);
}

#[test]
fn test_rate_gate_window() {
    let mut app = new_app();

    let tx1 = signed_tx("meme", "create_token", ALICE, None, create_token_data(), NOW);
    assert!(app.process_transaction(&tx1, NOW).unwrap().success);

    // a second submission from the same address within the window
    let mut data = Payload::empty();
    data.token = Some("TEST".to_string());
    data.amount = Some(10);
    let tx2 = signed_tx("meme", "transfer", ALICE, Some(BOB), data.clone(), NOW + 30);
    match app.process_transaction(&tx2, NOW + 30) {
        Err(MemeChainError::RateLimitExceeded) => {}
        other => panic!("expected a rate limit rejection, got {:?}", other.is_ok()),
    }

    // a different address is gated independently
    let mut buy = Payload::empty();
    buy.token = Some("TEST".to_string());
    buy.amount = Some(100);
    let tx3 = signed_tx("meme", "buy", BOB, None, buy, NOW + 30);
    assert!(app.process_transaction(&tx3, NOW + 30).unwrap().success);

    // after the window has passed, the sender is admitted again
    let tx4 = signed_tx("meme", "transfer", ALICE, Some(BOB), data, NOW + 61);
    assert!(app.process_transaction(&tx4, NOW + 61).unwrap().success);
}

#[test]
fn test_block_batches_all_drained_transactions() {
    let mut app = new_app();

    // three pending transactions from three senders; the middle one
    // names an unknown module and will fail without aborting the batch
    app.add_transaction(signed_tx("meme", "create_token", ALICE, None, create_token_data(), NOW));
    app.add_transaction(signed_tx("bogus", "create_token", BOB, None, create_token_data(), NOW));
    let mut buy = Payload::empty();
    buy.token = Some("TEST".to_string());
    buy.amount = Some(1000);
    app.add_transaction(signed_tx("meme", "buy", CAROL, None, buy, NOW));

    assert_eq!(app.tx_pool_size(), 3);
    let block = app.create_block(NOW).unwrap();

    assert_eq!(app.tx_pool_size(), 0);
    assert_eq!(block.height, 1);
    assert_eq!(block.transactions.len(), 3);
    assert_eq!(block.results.len(), 3);
    assert!(block.results[0].success);
    assert!(!block.results[1].success);
    assert!(block.results[1].error.is_some());
    assert!(block.results[2].success);
    // index alignment: the failed result sits at the failed transaction
    assert_eq!(block.transactions[1].module, "bogus");

    // the block is persisted under its height
    let stored = app.storage().get_block(1).unwrap().unwrap();
    assert_eq!(stored.transactions.len(), 3);

    // a following block is one height above
    let block2 = app.create_block(NOW + 100).unwrap();
    assert_eq!(block2.height, 2);
    assert_eq!(block2.transactions.len(), 0);
}

#[test]
fn test_genesis_creation() {
    let genesis = GenesisConfig::new(
        "test-chain".to_string(),
        "test-validator".to_string(),
        "1970-01-01T00:00:00Z".to_string(),
    );
    assert_eq!(genesis.chain_id, "test-chain");
    assert_eq!(genesis.validators.len(), 1);
    assert_eq!(genesis.accounts.len(), 2);
}

#[test]
fn test_nft_error() {
    let nft_error = NftError::CollectionNotFound("test".to_string());
    let module_error = ModuleError::Nft(nft_error);
    let memechain_error = MemeChainError::Module(module_error);
    assert!(matches!(memechain_error, MemeChainError::Module(_)));
}

#[test]
fn test_error_messages() {
    let e = MemeChainError::RateLimitExceeded;
    assert_eq!(e.to_message(), "rate limit exceeded");
    let e2 = MemeChainError::TokenNotFound("ZZZ".to_string());
    assert_eq!(e2.to_message(), "token not found: ZZZ");
}

#[test]
fn test_block_calculate_hash() {
    let mut app = new_app();
    let mut block = app.create_block(NOW).unwrap();
    let h = block.calculate_hash();
    assert_eq!(h.len(), 64);
    assert_eq!(block.hash, h);
    // the hash is a function of height, timestamp and previous hash
    let mut again = memechain::types::Block::new(
        block.height,
        Vec::new(),
        Vec::new(),
        block.previous_hash.clone(),
        block.timestamp,
    );
    assert_eq!(again.calculate_hash(), h);
}
