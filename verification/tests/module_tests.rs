use memechain::meme::MemeModule;
use memechain::nft::NftModule;
use memechain::storage::Storage;
use memechain::types::{Address, AntiRugSettings, Payload, Transaction};

const NOW: i64 = 1_700_000_000;

fn meme_tx(action: &str, from: &str, to: Option<&str>, data: Payload) -> Transaction {
    Transaction::new(
        "meme".to_string(),
        action.to_string(),
        Address::new(from.to_string()),
        to.map(|a| Address::new(a.to_string())),
        data,
        NOW,
    )
}

fn nft_tx(action: &str, from: &str, to: Option<&str>, data: Payload) -> Transaction {
    Transaction::new(
        "nft".to_string(),
        action.to_string(),
        Address::new(from.to_string()),
        to.map(|a| Address::new(a.to_string())),
        data,
        NOW,
    )
}

fn create_test_token(module: &MemeModule, storage: &mut Storage) {
    let mut data = Payload::empty();
    data.name = Some("Test Token".to_string());
    data.symbol = Some("TEST".to_string());
    data.supply = Some(1_000_000);
    let tx = meme_tx("create_token", "memechain1alice", None, data);
    let result = module.process_transaction(storage, &tx, NOW).unwrap();
    assert!(result.success);
}

#[test]
fn test_create_token() {
    let mut storage = Storage::new_in_memory();
    let module = MemeModule::new();

    let mut data = Payload::empty();
    data.name = Some("Test Token".to_string());
    data.symbol = Some("TEST".to_string());
    data.supply = Some(1_000_000);
    let tx = meme_tx("create_token", "memechain1alice", None, data);

    let result = module.process_transaction(&mut storage, &tx, NOW).unwrap();
    assert!(result.success);
}

#[test]
fn test_transfer_token() {
    let mut storage = Storage::new_in_memory();
    let module = MemeModule::new();

    create_test_token(&module, &mut storage);

    let mut data = Payload::empty();
    data.token = Some("TEST".to_string());
    data.amount = Some(1000);
    let transfer_tx = meme_tx("transfer", "memechain1alice", Some("memechain1bob"), data);

    let result = module.process_transaction(&mut storage, &transfer_tx, NOW).unwrap();
    assert!(result.success);
}

#[test]
fn test_create_token_credits_creator_with_supply() {
    let mut storage = Storage::new_in_memory();
    let module = MemeModule::new();
    create_test_token(&module, &mut storage);
    let alice = Address::new("memechain1alice".to_string());
    let balance = storage.get_balance(&alice, "TEST").unwrap().unwrap();
    assert_eq!(balance.amount, 1_000_000);
}

#[test]
fn test_duplicate_symbol_conflicts() {
    let mut storage = Storage::new_in_memory();
    let module = MemeModule::new();
    create_test_token(&module, &mut storage);

    // a second creation of the same symbol fails, whatever the other fields
    let mut data = Payload::empty();
    data.name = Some("Another Name".to_string());
    data.symbol = Some("TEST".to_string());
    data.supply = Some(5);
    let tx = meme_tx("create_token", "memechain1bob", None, data);
    let err = module.process_transaction(&mut storage, &tx, NOW).unwrap_err();
    let msg = err.to_message();
    assert!(msg.contains("token already exists"));
}

#[test]
fn test_transfer_moves_exact_amounts() {
    let mut storage = Storage::new_in_memory();
    let module = MemeModule::new();
    create_test_token(&module, &mut storage);

    let mut data = Payload::empty();
    data.token = Some("TEST".to_string());
    data.amount = Some(1000);
    let tx = meme_tx("transfer", "memechain1alice", Some("memechain1bob"), data);
    module.process_transaction(&mut storage, &tx, NOW).unwrap();

    let alice = Address::new("memechain1alice".to_string());
    let bob = Address::new("memechain1bob".to_string());
    assert_eq!(storage.get_balance(&alice, "TEST").unwrap().unwrap().amount, 999_000);
    assert_eq!(storage.get_balance(&bob, "TEST").unwrap().unwrap().amount, 1_000);
}

#[test]
fn test_transfer_insufficient_balance() {
    let mut storage = Storage::new_in_memory();
    let module = MemeModule::new();
    create_test_token(&module, &mut storage);

    let mut data = Payload::empty();
    data.token = Some("TEST".to_string());
    data.amount = Some(5);
    let tx = meme_tx("transfer", "memechain1bob", Some("memechain1alice"), data);
    let err = module.process_transaction(&mut storage, &tx, NOW).unwrap_err();
    assert!(err.to_message().contains("insufficient balance") || err.to_message().contains("no balance"));
}

#[test]
fn test_buy_credits_amount_minus_tax() {
    let mut storage = Storage::new_in_memory();
    let module = MemeModule::new();
    create_test_token(&module, &mut storage);

    let mut data = Payload::empty();
    data.token = Some("TEST".to_string());
    data.amount = Some(1000);
    let tx = meme_tx("buy", "memechain1carol", None, data);
    let result = module.process_transaction(&mut storage, &tx, NOW).unwrap();
    let out = result.data.unwrap();
    assert_eq!(out.amount, Some(980));
    assert_eq!(out.tax, Some(20));

    let carol = Address::new("memechain1carol".to_string());
    assert_eq!(storage.get_balance(&carol, "TEST").unwrap().unwrap().amount, 980);
    // no debit anywhere else: the creator still holds the full supply
    let alice = Address::new("memechain1alice".to_string());
    assert_eq!(storage.get_balance(&alice, "TEST").unwrap().unwrap().amount, 1_000_000);
}

#[test]
fn test_sell_fails_while_lock_window_active() {
    let mut storage = Storage::new_in_memory();
    let mut module = MemeModule::new();
    create_test_token(&module, &mut storage);

    module.update_block_height(10);
    let mut lock = Payload::empty();
    lock.token = Some("TEST".to_string());
    lock.duration_blocks = Some(100);
    let lock_tx = meme_tx("lock_liquidity", "memechain1alice", None, lock);
    module.process_transaction(&mut storage, &lock_tx, NOW).unwrap();

    // inside the window: current 50 < 10 + 100
    module.update_block_height(50);
    let mut data = Payload::empty();
    data.token = Some("TEST".to_string());
    data.amount = Some(500);
    let sell_tx = meme_tx("sell", "memechain1alice", None, data);
    let err = module.process_transaction(&mut storage, &sell_tx, NOW).unwrap_err();
    assert!(err.to_message().contains("liquidity"));

    // at the window's end: current 110 == 10 + 100, the sell goes through
    module.update_block_height(110);
    let mut data2 = Payload::empty();
    data2.token = Some("TEST".to_string());
    data2.amount = Some(500);
    let sell_tx2 = meme_tx("sell", "memechain1alice", None, data2);
    let result = module.process_transaction(&mut storage, &sell_tx2, NOW).unwrap();
    let out = result.data.unwrap();
    assert_eq!(out.tax, Some(15));
    assert_eq!(out.amount, Some(485));
    // the seller is debited the full amount
    let alice = Address::new("memechain1alice".to_string());
    assert_eq!(storage.get_balance(&alice, "TEST").unwrap().unwrap().amount, 999_500);
}

#[test]
fn test_lock_liquidity_only_creator() {
    let mut storage = Storage::new_in_memory();
    let module = MemeModule::new();
    create_test_token(&module, &mut storage);

    let mut lock = Payload::empty();
    lock.token = Some("TEST".to_string());
    lock.duration_blocks = Some(100);
    let tx = meme_tx("lock_liquidity", "memechain1bob", None, lock);
    let err = module.process_transaction(&mut storage, &tx, NOW).unwrap_err();
    assert!(err.to_message().contains("unauthorized"));
}

#[test]
fn test_create_token_rejects_bad_policy() {
    let mut storage = Storage::new_in_memory();
    let module = MemeModule::new();
    let mut data = Payload::empty();
    data.name = Some("Bad".to_string());
    data.symbol = Some("BAD".to_string());
    data.supply = Some(10);
    let mut anti = AntiRugSettings::default();
    anti.buy_tax_percentage = 150;
    data.anti_rug = Some(anti);
    let tx = meme_tx("create_token", "memechain1alice", None, data);
    let err = module.process_transaction(&mut storage, &tx, NOW).unwrap_err();
    assert!(err.to_message().contains("anti-rug"));
}

#[test]
fn test_create_collection() {
    let mut storage = Storage::new_in_memory();
    let module = NftModule::new();

    let mut data = Payload::empty();
    data.name = Some("Test Collection".to_string());
    data.description = Some("A test collection".to_string());
    let tx = nft_tx("create_collection", "memechain1alice", None, data);

    let result = module.process_transaction(&mut storage, &tx, NOW).unwrap();
    assert!(result.success);
}

#[test]
fn test_mint_nft() {
    let mut storage = Storage::new_in_memory();
    let module = NftModule::new();

    let mut cdata = Payload::empty();
    cdata.name = Some("Test Collection".to_string());
    cdata.description = Some("A test collection".to_string());
    let collection_tx = nft_tx("create_collection", "memechain1alice", None, cdata);

    let collection_result = module.process_transaction(&mut storage, &collection_tx, NOW).unwrap();
    let collection_id = collection_result.data.unwrap().collection_id.unwrap();

    let mut mdata = Payload::empty();
    mdata.collection = Some(collection_id);
    mdata.name = Some("Test NFT".to_string());
    mdata.metadata = Some("{\"rarity\":\"legendary\"}".to_string());
    let mint_tx = nft_tx("mint", "memechain1alice", None, mdata);

    let result = module.process_transaction(&mut storage, &mint_tx, NOW).unwrap();
    assert!(result.success);
}

#[test]
fn test_mint_then_burn_then_lookup_absent() {
    let mut storage = Storage::new_in_memory();
    let module = NftModule::new();

    let mut cdata = Payload::empty();
    cdata.name = Some("X".to_string());
    let collection_tx = nft_tx("create_collection", "memechain1alice", None, cdata);
    let collection_id = module
        .process_transaction(&mut storage, &collection_tx, NOW)
        .unwrap()
        .data
        .unwrap()
        .collection_id
        .unwrap();

    let mut mdata = Payload::empty();
    mdata.collection = Some(collection_id);
    mdata.name = Some("Art".to_string());
    let mint_tx = nft_tx("mint", "memechain1alice", None, mdata);
    let nft_id = module
        .process_transaction(&mut storage, &mint_tx, NOW)
        .unwrap()
        .data
        .unwrap()
        .nft_id
        .unwrap();

    assert!(module.get_nft(&storage, &nft_id).unwrap().is_some());

    let mut bdata = Payload::empty();
    bdata.nft_id = Some(nft_id.clone());
    let burn_tx = nft_tx("burn", "memechain1alice", None, bdata);
    let result = module.process_transaction(&mut storage, &burn_tx, NOW).unwrap();
    assert!(result.success);

    // the burn is terminal: the id is gone
    assert!(module.get_nft(&storage, &nft_id).unwrap().is_none());

    // burning again fails: there is nothing left to burn
    let mut bdata2 = Payload::empty();
    bdata2.nft_id = Some(nft_id);
    let burn_tx2 = nft_tx("burn", "memechain1alice", None, bdata2);
    assert!(module.process_transaction(&mut storage, &burn_tx2, NOW).is_err());
}

#[test]
fn test_nft_transfer_owner_only() {
    let mut storage = Storage::new_in_memory();
    let module = NftModule::new();

    let mut cdata = Payload::empty();
    cdata.name = Some("X".to_string());
    let collection_tx = nft_tx("create_collection", "memechain1alice", None, cdata);
    let collection_id = module
        .process_transaction(&mut storage, &collection_tx, NOW)
        .unwrap()
        .data
        .unwrap()
        .collection_id
        .unwrap();

    let mut mdata = Payload::empty();
    mdata.collection = Some(collection_id);
    mdata.name = Some("Art".to_string());
    let mint_tx = nft_tx("mint", "memechain1alice", None, mdata);
    let nft_id = module
        .process_transaction(&mut storage, &mint_tx, NOW)
        .unwrap()
        .data
        .unwrap()
        .nft_id
        .unwrap();

    // not the owner: rejected, ownership unchanged
    let mut tdata = Payload::empty();
    tdata.nft_id = Some(nft_id.clone());
    let bad_tx = nft_tx("transfer", "memechain1bob", Some("memechain1carol"), tdata);
    assert!(module.process_transaction(&mut storage, &bad_tx, NOW).is_err());
    let nft = module.get_nft(&storage, &nft_id).unwrap().unwrap();
    assert_eq!(nft.owner.as_str(), "memechain1alice");

    // the owner reassigns it
    let mut tdata2 = Payload::empty();
    tdata2.nft_id = Some(nft_id.clone());
    let good_tx = nft_tx("transfer", "memechain1alice", Some("memechain1bob"), tdata2);
    module.process_transaction(&mut storage, &good_tx, NOW).unwrap();
    let nft2 = module.get_nft(&storage, &nft_id).unwrap().unwrap();
    assert_eq!(nft2.owner.as_str(), "memechain1bob");

    // metadata replacement is owner-only and wholesale
    let mut udata = Payload::empty();
    udata.nft_id = Some(nft_id.clone());
    udata.metadata = Some("{\"v\":2}".to_string());
    let upd_tx = nft_tx("update_metadata", "memechain1bob", None, udata);
    module.process_transaction(&mut storage, &upd_tx, NOW).unwrap();
    let nft3 = module.get_nft(&storage, &nft_id).unwrap().unwrap();
    assert_eq!(nft3.metadata, Some("{\"v\":2}".to_string()));
}

#[test]
fn test_nft_listings() {
    let mut storage = Storage::new_in_memory();
    let module = NftModule::new();

    let mut cdata = Payload::empty();
    cdata.name = Some("X".to_string());
    let collection_tx = nft_tx("create_collection", "memechain1alice", None, cdata);
    let collection_id = module
        .process_transaction(&mut storage, &collection_tx, NOW)
        .unwrap()
        .data
        .unwrap()
        .collection_id
        .unwrap();

    for owner in ["memechain1alice", "memechain1bob"] {
        let mut mdata = Payload::empty();
        mdata.collection = Some(collection_id.clone());
        mdata.name = Some("Art".to_string());
        let mint_tx = nft_tx("mint", owner, None, mdata);
        module.process_transaction(&mut storage, &mint_tx, NOW).unwrap();
    }

    assert_eq!(module.list_nfts(&storage).unwrap().len(), 2);
    assert_eq!(module.list_collections(&storage).unwrap().len(), 1);
    assert_eq!(module.get_nfts_by_collection(&storage, &collection_id).unwrap().len(), 2);
    let bob = Address::new("memechain1bob".to_string());
    assert_eq!(module.get_nfts_by_owner(&storage, &bob).unwrap().len(), 1);
}

#[test]
fn test_transfers_preserve_total_supply() {
    let mut storage = Storage::new_in_memory();
    let module = MemeModule::new();
    create_test_token(&module, &mut storage);

    let holders = ["memechain1alice", "memechain1bob", "memechain1carol"];
    let moves: [(&str, &str, u64); 4] = [
        ("memechain1alice", "memechain1bob", 1000),
        ("memechain1alice", "memechain1carol", 250_000),
        ("memechain1bob", "memechain1carol", 999),
        ("memechain1carol", "memechain1alice", 123_456),
    ];
    for (from, to, amount) in moves {
        let mut data = Payload::empty();
        data.token = Some("TEST".to_string());
        data.amount = Some(amount);
        let tx = meme_tx("transfer", from, Some(to), data);
        module.process_transaction(&mut storage, &tx, NOW).unwrap();
        let total: u64 = holders
            .iter()
            .map(|h| {
                storage
                    .get_balance(&Address::new(h.to_string()), "TEST")
                    .unwrap()
                    .map(|b| b.amount)
                    .unwrap_or(0)
            })
            .sum();
        assert_eq!(total, 1_000_000);
    }
}

#[test]
fn test_create_token_result_payload() {
    let mut storage = Storage::new_in_memory();
    let module = MemeModule::new();
    let mut data = Payload::empty();
    data.name = Some("Test Token".to_string());
    data.symbol = Some("TEST".to_string());
    data.supply = Some(1_000_000);
    let tx = meme_tx("create_token", "memechain1alice", None, data);
    let out = module.process_transaction(&mut storage, &tx, NOW).unwrap().data.unwrap();
    assert_eq!(out.symbol, Some("TEST".to_string()));
    assert_eq!(out.name, Some("Test Token".to_string()));
    assert_eq!(out.supply, Some(1_000_000));
    assert_eq!(out.creator, Some("memechain1alice".to_string()));
}

#[test]
fn test_transfer_result_payload() {
    let mut storage = Storage::new_in_memory();
    let module = MemeModule::new();
    create_test_token(&module, &mut storage);
    let mut data = Payload::empty();
    data.token = Some("TEST".to_string());
    data.amount = Some(1000);
    let tx = meme_tx("transfer", "memechain1alice", Some("memechain1bob"), data);
    let out = module.process_transaction(&mut storage, &tx, NOW).unwrap().data.unwrap();
    assert_eq!(out.token, Some("TEST".to_string()));
    assert_eq!(out.amount, Some(1000));
    assert_eq!(out.from, Some("memechain1alice".to_string()));
    assert_eq!(out.to, Some("memechain1bob".to_string()));
}

#[test]
fn test_self_transfer_restores_balance() {
    let mut storage = Storage::new_in_memory();
    let module = MemeModule::new();
    create_test_token(&module, &mut storage);
    let mut data = Payload::empty();
    data.token = Some("TEST".to_string());
    data.amount = Some(777);
    let tx = meme_tx("transfer", "memechain1alice", Some("memechain1alice"), data);
    assert!(module.process_transaction(&mut storage, &tx, NOW).unwrap().success);
    let alice = Address::new("memechain1alice".to_string());
    assert_eq!(storage.get_balance(&alice, "TEST").unwrap().unwrap().amount, 1_000_000);
}

#[test]
fn test_failed_transfer_changes_nothing() {
    let mut storage = Storage::new_in_memory();
    let module = MemeModule::new();
    create_test_token(&module, &mut storage);
    let mut data = Payload::empty();
    data.token = Some("TEST".to_string());
    data.amount = Some(2_000_000);
    let tx = meme_tx("transfer", "memechain1alice", Some("memechain1bob"), data);
    assert!(module.process_transaction(&mut storage, &tx, NOW).is_err());
    let alice = Address::new("memechain1alice".to_string());
    let bob = Address::new("memechain1bob".to_string());
    assert_eq!(storage.get_balance(&alice, "TEST").unwrap().unwrap().amount, 1_000_000);
    assert!(storage.get_balance(&bob, "TEST").unwrap().is_none());
}

#[test]
fn test_nft_transfer_result_payload() {
    let mut storage = Storage::new_in_memory();
    let module = NftModule::new();
    let mut cdata = Payload::empty();
    cdata.name = Some("X".to_string());
    let ctx = nft_tx("create_collection", "memechain1alice", None, cdata);
    let cres = module.process_transaction(&mut storage, &ctx, NOW).unwrap().data.unwrap();
    assert_eq!(cres.name, Some("X".to_string()));
    assert_eq!(cres.creator, Some("memechain1alice".to_string()));
    let collection_id = cres.collection_id.unwrap();

    let mut mdata = Payload::empty();
    mdata.collection = Some(collection_id.clone());
    mdata.name = Some("Art".to_string());
    let mtx = nft_tx("mint", "memechain1alice", None, mdata);
    let mres = module.process_transaction(&mut storage, &mtx, NOW).unwrap().data.unwrap();
    assert_eq!(mres.collection_id, Some(collection_id));
    assert_eq!(mres.name, Some("Art".to_string()));
    assert_eq!(mres.owner, Some("memechain1alice".to_string()));
    let nft_id = mres.nft_id.unwrap();

    let mut tdata = Payload::empty();
    tdata.nft_id = Some(nft_id.clone());
    let ttx = nft_tx("transfer", "memechain1alice", Some("memechain1bob"), tdata);
    let tres = module.process_transaction(&mut storage, &ttx, NOW).unwrap().data.unwrap();
    assert_eq!(tres.nft_id, Some(nft_id.clone()));
    assert_eq!(tres.from, Some("memechain1alice".to_string()));
    assert_eq!(tres.to, Some("memechain1bob".to_string()));

    let mut bdata = Payload::empty();
    bdata.nft_id = Some(nft_id.clone());
    let btx = nft_tx("burn", "memechain1bob", None, bdata);
    let bres = module.process_transaction(&mut storage, &btx, NOW).unwrap().data.unwrap();
    assert_eq!(bres.nft_id, Some(nft_id));
    assert_eq!(bres.burned_by, Some("memechain1bob".to_string()));
}
