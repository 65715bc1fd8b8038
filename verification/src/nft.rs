//! The NFT registry module: collections, minting, owner-only
//! transfer, metadata replacement, and irreversible burning.

use vstd::prelude::*;
use crate::error::{MemeChainError, NftError, ModuleError};
use crate::types::{Address, Collection, CollectionV, Nft, NftV, Payload, Transaction, TransactionResult, TransactionV, TransactionResultV};
use crate::storage::{Storage, stored_nft, stored_collection, nft_key, collection_key, nfts_listed, collections_listed, nfts_complete, collections_complete, stored_nft_at};
use crate::codec::{enc_nft, enc_collection};
use crate::common::str_eq;

verus! {

/// Relies on uuid's Uuid::new_v4 and its hyphenated display: a fresh
/// random identifier, 36 characters long.
#[verifier::external_body]
fn fresh_id() -> (r: String)
    ensures
        r@.len() == 36,
{
    uuid::Uuid::new_v4().to_string()
}

// ---------------------------------------------------------------------
// The success condition, store effect and result payload of each
// registry action, named so that the dispatcher and the pipeline can
// carry the same statements as the action functions themselves.
// ---------------------------------------------------------------------

/// What holds after a successful collection creation, whatever fresh
/// identifier was drawn: the result data names it, the slot was free,
/// and the store gained exactly that record.
pub open spec fn created_collection_post(m: Map<Seq<char>, Seq<u8>>, m2: Map<Seq<char>, Seq<u8>>, tx: TransactionV, res: TransactionResultV, now: i64) -> bool {
    &&& tx.data.name is Some
    &&& res.data matches Some(d)
    &&& d.collection_id matches Some(cid)
        && d.name == Some(tx.data.name->0)
        && d.creator == Some(tx.from)
        && !m.contains_key(collection_key(cid))
        && m2 == m.insert(collection_key(cid), enc_collection(CollectionV {
            id: cid,
            name: tx.data.name->0,
            creator: tx.from,
            description: match tx.data.description {
                Some(de) => de,
                None => Seq::empty(),
            },
            created_at: now,
            updated_at: now,
        }))
}

/// What holds after a successful mint, whatever fresh identifier was
/// drawn: the collection existed, the slot was free, the sender owns
/// the new record, and the result data names all of it.
pub open spec fn minted_post(m: Map<Seq<char>, Seq<u8>>, m2: Map<Seq<char>, Seq<u8>>, tx: TransactionV, res: TransactionResultV, now: i64) -> bool {
    &&& tx.data.collection is Some
    &&& tx.data.name is Some
    &&& m.contains_key(collection_key(tx.data.collection->0))
    &&& res.data matches Some(d)
    &&& d.nft_id matches Some(nid)
        && d.collection_id == Some(tx.data.collection->0)
        && d.name == Some(tx.data.name->0)
        && d.owner == Some(tx.from)
        && !m.contains_key(nft_key(nid))
        && m2 == m.insert(nft_key(nid), enc_nft(NftV {
            id: nid,
            collection_id: tx.data.collection->0,
            name: tx.data.name->0,
            owner: tx.from,
            metadata: tx.data.metadata,
            created_at: now,
            updated_at: now,
        }))
}

/// When an NFT transfer succeeds: the fields are present, the record
/// is stored, and the sender owns it.
pub open spec fn nft_transfer_ok(m: Map<Seq<char>, Seq<u8>>, tx: TransactionV) -> bool {
    &&& tx.data.nft_id is Some
    &&& tx.to is Some
    &&& stored_nft(m, tx.data.nft_id->0) matches Some(nv) && nv.owner == tx.from
}

/// The store after a successful NFT transfer: only the owner and the
/// update timestamp change.
pub open spec fn nft_transfer_model(m: Map<Seq<char>, Seq<u8>>, tx: TransactionV, now: i64) -> Map<Seq<char>, Seq<u8>> {
    let nid = tx.data.nft_id->0;
    let nv = stored_nft(m, nid)->0;
    m.insert(nft_key(nid), enc_nft(NftV { id: nid, owner: tx.to->0, updated_at: now, ..nv }))
}

/// The result payload of a successful NFT transfer.
pub open spec fn nft_transfer_result(tx: TransactionV, res: TransactionResultV) -> bool {
    res.data matches Some(d)
        && d.nft_id == Some(tx.data.nft_id->0)
        && d.from == Some(tx.from)
        && d.to == Some(tx.to->0)
}

/// When a burn succeeds: the field is present, the record is stored,
/// and the sender owns it.
pub open spec fn burn_nft_ok(m: Map<Seq<char>, Seq<u8>>, tx: TransactionV) -> bool {
    &&& tx.data.nft_id is Some
    &&& stored_nft(m, tx.data.nft_id->0) matches Some(nv) && nv.owner == tx.from
}

/// The store after a successful burn: the record is gone.
pub open spec fn burn_nft_model(m: Map<Seq<char>, Seq<u8>>, tx: TransactionV) -> Map<Seq<char>, Seq<u8>> {
    m.remove(nft_key(tx.data.nft_id->0))
}

/// The result payload of a successful burn.
pub open spec fn burn_nft_result(tx: TransactionV, res: TransactionResultV) -> bool {
    res.data matches Some(d)
        && d.nft_id == Some(tx.data.nft_id->0)
        && d.burned_by == Some(tx.from)
}

/// When a metadata update succeeds: the field is present, the record
/// is stored, and the sender owns it.
pub open spec fn update_metadata_ok(m: Map<Seq<char>, Seq<u8>>, tx: TransactionV) -> bool {
    burn_nft_ok(m, tx)
}

/// The store after a successful metadata update: the metadata is
/// replaced wholesale and the update timestamp stamped.
pub open spec fn update_metadata_model(m: Map<Seq<char>, Seq<u8>>, tx: TransactionV, now: i64) -> Map<Seq<char>, Seq<u8>> {
    let nid = tx.data.nft_id->0;
    let nv = stored_nft(m, nid)->0;
    m.insert(nft_key(nid), enc_nft(NftV { id: nid, metadata: tx.data.metadata, updated_at: now, ..nv }))
}

/// The result payload of a successful metadata update.
pub open spec fn update_metadata_result(tx: TransactionV, res: TransactionResultV) -> bool {
    res.data matches Some(d)
        && d.nft_id == Some(tx.data.nft_id->0)
        && d.updated_by == Some(tx.from)
}

/// The error carried by an absent NFT.
pub open spec fn is_nft_not_found(e: MemeChainError) -> bool {
    e matches MemeChainError::Module(me) && me matches ModuleError::Nft(n2) && n2 is NftNotFound
}

/// The error carried by a non-owner mutation attempt.
pub open spec fn is_nft_unauthorized(e: MemeChainError) -> bool {
    e matches MemeChainError::Module(me) && me matches ModuleError::Nft(n2) && n2 is Unauthorized
}

/// The error carried by an absent collection.
pub open spec fn is_collection_not_found(e: MemeChainError) -> bool {
    e matches MemeChainError::Module(me) && me matches ModuleError::Nft(n2) && n2 is CollectionNotFound
}

/// NFT module for managing collections and NFTs.
#[derive(Debug)]
pub struct NftModule {
}

impl NftModule {
    /// Create a new NFT module.
    pub fn new() -> (r: Self) {
        NftModule {}
    }

    /// Route an NFT transaction by its action name; an unrecognized
    /// action is a module-level failure.
    pub fn process_transaction(&self, storage: &mut Storage, tx: &Transaction, now: i64) -> (r: Result<TransactionResult, MemeChainError>)
        requires
            old(storage).inv(),
        ensures
            final(storage).inv(),
            final(storage).infallible() == old(storage).infallible(),
            r matches Ok(res) ==> res.success && res.error is None,
            tx@.action == "create_collection"@ ==> (r matches Ok(res)
                ==> created_collection_post(old(storage).model(), final(storage).model(), tx@, res@, now)),
            tx@.action == "create_collection"@ && tx@.data.name is None
                ==> r is Err && final(storage).model() == old(storage).model(),
            tx@.action == "mint"@ ==> (r matches Ok(res)
                ==> minted_post(old(storage).model(), final(storage).model(), tx@, res@, now)),
            tx@.action == "mint"@ && (tx@.data.collection is None || tx@.data.name is None)
                ==> r is Err && final(storage).model() == old(storage).model(),
            tx@.action == "transfer"@ ==> ({
                &&& r matches Ok(res) ==> nft_transfer_ok(old(storage).model(), tx@)
                    && final(storage).model() == nft_transfer_model(old(storage).model(), tx@, now)
                    && nft_transfer_result(tx@, res@)
                &&& old(storage).infallible() ==> (r is Ok <==> nft_transfer_ok(old(storage).model(), tx@))
            }),
            tx@.action == "burn"@ ==> ({
                &&& r matches Ok(res) ==> burn_nft_ok(old(storage).model(), tx@)
                    && final(storage).model() == burn_nft_model(old(storage).model(), tx@)
                    && burn_nft_result(tx@, res@)
                &&& old(storage).infallible() ==> (r is Ok <==> burn_nft_ok(old(storage).model(), tx@))
            }),
            tx@.action == "update_metadata"@ ==> ({
                &&& r matches Ok(res) ==> update_metadata_ok(old(storage).model(), tx@)
                    && final(storage).model() == update_metadata_model(old(storage).model(), tx@, now)
                    && update_metadata_result(tx@, res@)
                &&& old(storage).infallible() ==> (r is Ok <==> update_metadata_ok(old(storage).model(), tx@))
            }),
            old(storage).infallible() ==> (r is Err ==> final(storage).model() == old(storage).model()),
            !(tx@.action == "create_collection"@ || tx@.action == "mint"@ || tx@.action == "transfer"@
                || tx@.action == "burn"@ || tx@.action == "update_metadata"@)
                ==> r is Err && final(storage).model() == old(storage).model(),
    {
        proof {
            reveal_strlit("create_collection");
            reveal_strlit("mint");
            reveal_strlit("transfer");
            reveal_strlit("burn");
            reveal_strlit("update_metadata");
            // the five action names are pairwise distinct
            assert("create_collection"@.len() == 17);
            assert("mint"@.len() == 4);
            assert("transfer"@.len() == 8);
            assert("burn"@.len() == 4);
            assert("update_metadata"@.len() == 15);
            assert("mint"@[0] == 'm' && "burn"@[0] == 'b');
        }
        if str_eq(tx.action.as_str(), "create_collection") {
            self.create_collection(storage, tx, now)
        } else if str_eq(tx.action.as_str(), "mint") {
            self.mint_nft(storage, tx, now)
        } else if str_eq(tx.action.as_str(), "transfer") {
            self.transfer_nft(storage, tx, now)
        } else if str_eq(tx.action.as_str(), "burn") {
            self.burn_nft(storage, tx, now)
        } else if str_eq(tx.action.as_str(), "update_metadata") {
            self.update_metadata(storage, tx, now)
        } else {
            Err(NftError::InvalidNftId(String::from_str("unknown action")).wrap())
        }
    }

    /// Create a collection under the given identifier. Fails with a
    /// conflict only when the identifier is already taken.
    pub fn create_collection_with_id(&self, storage: &mut Storage, tx: &Transaction, id: String, now: i64) -> (r: Result<TransactionResult, MemeChainError>)
        requires
            old(storage).inv(),
        ensures
            final(storage).inv(),
            final(storage).infallible() == old(storage).infallible(),
            r matches Ok(res) ==> ({
                &&& res.success && res.error is None
                &&& created_collection_post(old(storage).model(), final(storage).model(), tx@, res@, now)
                &&& (res@.data matches Some(d) && d.collection_id == Some(id@))
            }),
            tx@.data.name is None ==> r is Err && final(storage).model() == old(storage).model(),
            ({
                &&& tx@.data.name is Some
                &&& old(storage).model().contains_key(collection_key(id@))
            }) ==> r is Err && final(storage).model() == old(storage).model(),
            old(storage).infallible() ==> (r is Ok <==>
                tx@.data.name is Some && !old(storage).model().contains_key(collection_key(id@))),
            old(storage).infallible() ==> (r is Err ==> final(storage).model() == old(storage).model()),
    {
        let name = match &tx.data.name {
            None => { return Err(NftError::InvalidMetadata(String::from_str("missing collection name")).wrap()); }
            Some(s) => s.clone(),
        };
        let description = match &tx.data.description {
            None => String::new(),
            Some(d) => d.clone(),
        };
        match storage.get_collection(id.as_str()) {
            Err(e) => { return Err(e); }
            Ok(Some(_)) => {
                return Err(NftError::CollectionExists(id).wrap());
            }
            Ok(None) => {}
        }
        let collection = Collection::new(id.clone(), name, tx.from.clone(), description, now);
        match storage.store_collection(&collection) {
            Err(e) => { return Err(e); }
            Ok(()) => {}
        }
        let mut data = Payload::empty();
        data.collection_id = Some(id);
        data.name = Some(collection.name.clone());
        data.creator = Some(String::from_str(tx.from.as_str()));
        Ok(TransactionResult::success(Some(data)))
    }

    /// Create a new collection under a freshly generated identifier;
    /// the result data names the identifier that was created.
    pub fn create_collection(&self, storage: &mut Storage, tx: &Transaction, now: i64) -> (r: Result<TransactionResult, MemeChainError>)
        requires
            old(storage).inv(),
        ensures
            final(storage).inv(),
            final(storage).infallible() == old(storage).infallible(),
            r matches Ok(res) ==> ({
                &&& res.success && res.error is None
                &&& created_collection_post(old(storage).model(), final(storage).model(), tx@, res@, now)
            }),
            tx@.data.name is None ==> r is Err && final(storage).model() == old(storage).model(),
            old(storage).infallible() ==> (r is Err ==> final(storage).model() == old(storage).model()),
    {
        let id = fresh_id();
        self.create_collection_with_id(storage, tx, id, now)
    }

    /// Mint an NFT under the given identifier: the collection must
    /// exist and the identifier must be fresh; the owner is the
    /// transaction sender.
    pub fn mint_nft_with_id(&self, storage: &mut Storage, tx: &Transaction, id: String, now: i64) -> (r: Result<TransactionResult, MemeChainError>)
        requires
            old(storage).inv(),
        ensures
            final(storage).inv(),
            final(storage).infallible() == old(storage).infallible(),
            r matches Ok(res) ==> ({
                &&& res.success && res.error is None
                &&& minted_post(old(storage).model(), final(storage).model(), tx@, res@, now)
                &&& (res@.data matches Some(d) && d.nft_id == Some(id@))
            }),
            (tx@.data.collection is None || tx@.data.name is None)
                ==> r is Err && final(storage).model() == old(storage).model(),
            ({
                &&& tx@.data.collection is Some
                &&& !old(storage).model().contains_key(collection_key(tx@.data.collection->0))
            }) ==> r is Err && final(storage).model() == old(storage).model(),
            ({
                &&& old(storage).infallible()
                &&& tx@.data.collection is Some
                &&& tx@.data.name is Some
                &&& !old(storage).model().contains_key(collection_key(tx@.data.collection->0))
            }) ==> (r matches Err(e) && is_collection_not_found(e)),
            old(storage).infallible() ==> (r is Ok <==> ({
                &&& tx@.data.collection is Some
                &&& tx@.data.name is Some
                &&& stored_collection(old(storage).model(), tx@.data.collection->0) is Some
                &&& !old(storage).model().contains_key(nft_key(id@))
            })),
            old(storage).infallible() ==> (r is Err ==> final(storage).model() == old(storage).model()),
    {
        let collection_id = match &tx.data.collection {
            None => { return Err(NftError::InvalidCollectionId(String::from_str("missing collection id")).wrap()); }
            Some(s) => s.clone(),
        };
        let name = match &tx.data.name {
            None => { return Err(NftError::InvalidMetadata(String::from_str("missing nft name")).wrap()); }
            Some(s) => s.clone(),
        };
        match storage.get_collection(collection_id.as_str()) {
            Err(e) => { return Err(e); }
            Ok(None) => {
                return Err(NftError::CollectionNotFound(collection_id).wrap());
            }
            Ok(Some(_)) => {}
        }
        match storage.get_nft(id.as_str()) {
            Err(e) => { return Err(e); }
            Ok(Some(_)) => {
                return Err(NftError::NftExists(id).wrap());
            }
            Ok(None) => {}
        }
        let metadata = crate::types::clone_opt_string(&tx.data.metadata);
        let nft = Nft::new(id.clone(), collection_id.clone(), name.clone(), tx.from.clone(), metadata, now);
        match storage.store_nft(&nft) {
            Err(e) => { return Err(e); }
            Ok(()) => {}
        }
        let mut data = Payload::empty();
        data.nft_id = Some(id);
        data.collection_id = Some(collection_id);
        data.name = Some(name);
        data.owner = Some(String::from_str(tx.from.as_str()));
        Ok(TransactionResult::success(Some(data)))
    }

    /// Mint a new NFT under a freshly generated identifier.
    pub fn mint_nft(&self, storage: &mut Storage, tx: &Transaction, now: i64) -> (r: Result<TransactionResult, MemeChainError>)
        requires
            old(storage).inv(),
        ensures
            final(storage).inv(),
            final(storage).infallible() == old(storage).infallible(),
            r matches Ok(res) ==> ({
                &&& res.success && res.error is None
                &&& minted_post(old(storage).model(), final(storage).model(), tx@, res@, now)
            }),
            (tx@.data.collection is None || tx@.data.name is None)
                ==> r is Err && final(storage).model() == old(storage).model(),
            ({
                &&& tx@.data.collection is Some
                &&& !old(storage).model().contains_key(collection_key(tx@.data.collection->0))
            }) ==> r is Err && final(storage).model() == old(storage).model(),
            ({
                &&& old(storage).infallible()
                &&& tx@.data.collection is Some
                &&& tx@.data.name is Some
                &&& !old(storage).model().contains_key(collection_key(tx@.data.collection->0))
            }) ==> (r matches Err(e) && is_collection_not_found(e)),
            old(storage).infallible() ==> (r is Err ==> final(storage).model() == old(storage).model()),
    {
        let id = fresh_id();
        self.mint_nft_with_id(storage, tx, id, now)
    }

    /// Transfer an NFT: only its owner may reassign it; the update
    /// timestamp is stamped.
    pub fn transfer_nft(&self, storage: &mut Storage, tx: &Transaction, now: i64) -> (r: Result<TransactionResult, MemeChainError>)
        requires
            old(storage).inv(),
        ensures
            final(storage).inv(),
            final(storage).infallible() == old(storage).infallible(),
            r matches Ok(res) ==> ({
                &&& res.success && res.error is None
                &&& nft_transfer_ok(old(storage).model(), tx@)
                &&& final(storage).model() == nft_transfer_model(old(storage).model(), tx@, now)
                &&& nft_transfer_result(tx@, res@)
            }),
            (tx@.data.nft_id is None || tx@.to is None)
                ==> r is Err && final(storage).model() == old(storage).model(),
            ({
                &&& tx@.data.nft_id is Some
                &&& tx@.to is Some
                &&& stored_nft(old(storage).model(), tx@.data.nft_id->0) matches Some(nv)
                    && nv.owner != tx@.from
            }) ==> r is Err && final(storage).model() == old(storage).model(),
            ({
                &&& old(storage).infallible()
                &&& tx@.data.nft_id is Some
                &&& tx@.to is Some
                &&& stored_nft(old(storage).model(), tx@.data.nft_id->0) matches Some(nv)
                    && nv.owner != tx@.from
            }) ==> (r matches Err(e) && is_nft_unauthorized(e)),
            ({
                &&& tx@.data.nft_id is Some
                &&& tx@.to is Some
                &&& !old(storage).model().contains_key(nft_key(tx@.data.nft_id->0))
            }) ==> r is Err && final(storage).model() == old(storage).model(),
            ({
                &&& old(storage).infallible()
                &&& tx@.data.nft_id is Some
                &&& tx@.to is Some
                &&& !old(storage).model().contains_key(nft_key(tx@.data.nft_id->0))
            }) ==> (r matches Err(e) && is_nft_not_found(e)),
            old(storage).infallible() ==> (r is Ok <==> nft_transfer_ok(old(storage).model(), tx@)),
            old(storage).infallible() ==> (r is Err ==> final(storage).model() == old(storage).model()),
    {
        let nft_id = match &tx.data.nft_id {
            None => { return Err(NftError::InvalidNftId(String::from_str("missing nft id")).wrap()); }
            Some(s) => s.clone(),
        };
        let to_address = match &tx.to {
            None => { return Err(NftError::TransferFailed(String::from_str("missing recipient address")).wrap()); }
            Some(a) => a.clone(),
        };
        let nft = match storage.get_nft(nft_id.as_str()) {
            Err(e) => { return Err(e); }
            Ok(None) => {
                return Err(NftError::NftNotFound(nft_id).wrap());
            }
            Ok(Some(n)) => n,
        };
        if !(nft.owner == tx.from) {
            return Err(NftError::Unauthorized(String::from_str("nft is not owned by sender")).wrap());
        }
        let updated = Nft { id: nft_id.clone(), owner: to_address.clone(), updated_at: now, ..nft };
        match storage.store_nft(&updated) {
            Err(e) => { return Err(e); }
            Ok(()) => {}
        }
        let mut data = Payload::empty();
        data.nft_id = Some(nft_id);
        data.from = Some(String::from_str(tx.from.as_str()));
        data.to = Some(String::from_str(to_address.as_str()));
        Ok(TransactionResult::success(Some(data)))
    }

    /// Burn an NFT: only its owner may burn it; the record is deleted,
    /// so any subsequent lookup of the identifier finds nothing. The
    /// deletion is terminal and irreversible.
    pub fn burn_nft(&self, storage: &mut Storage, tx: &Transaction, now: i64) -> (r: Result<TransactionResult, MemeChainError>)
        requires
            old(storage).inv(),
        ensures
            final(storage).inv(),
            final(storage).infallible() == old(storage).infallible(),
            r matches Ok(res) ==> ({
                &&& res.success && res.error is None
                &&& burn_nft_ok(old(storage).model(), tx@)
                &&& final(storage).model() == burn_nft_model(old(storage).model(), tx@)
                &&& !final(storage).model().contains_key(nft_key(tx@.data.nft_id->0))
                &&& burn_nft_result(tx@, res@)
            }),
            tx@.data.nft_id is None ==> r is Err && final(storage).model() == old(storage).model(),
            ({
                &&& tx@.data.nft_id is Some
                &&& stored_nft(old(storage).model(), tx@.data.nft_id->0) matches Some(nv)
                    && nv.owner != tx@.from
            }) ==> r is Err && final(storage).model() == old(storage).model(),
            ({
                &&& old(storage).infallible()
                &&& tx@.data.nft_id is Some
                &&& stored_nft(old(storage).model(), tx@.data.nft_id->0) matches Some(nv)
                    && nv.owner != tx@.from
            }) ==> (r matches Err(e) && is_nft_unauthorized(e)),
            ({
                &&& tx@.data.nft_id is Some
                &&& !old(storage).model().contains_key(nft_key(tx@.data.nft_id->0))
            }) ==> r is Err && final(storage).model() == old(storage).model(),
            ({
                &&& old(storage).infallible()
                &&& tx@.data.nft_id is Some
                &&& !old(storage).model().contains_key(nft_key(tx@.data.nft_id->0))
            }) ==> (r matches Err(e) && is_nft_not_found(e)),
            old(storage).infallible() ==> (r is Ok <==> burn_nft_ok(old(storage).model(), tx@)),
            old(storage).infallible() ==> (r is Err ==> final(storage).model() == old(storage).model()),
    {
        let nft_id = match &tx.data.nft_id {
            None => { return Err(NftError::InvalidNftId(String::from_str("missing nft id")).wrap()); }
            Some(s) => s.clone(),
        };
        let nft = match storage.get_nft(nft_id.as_str()) {
            Err(e) => { return Err(e); }
            Ok(None) => {
                return Err(NftError::NftNotFound(nft_id).wrap());
            }
            Ok(Some(n)) => n,
        };
        if !(nft.owner == tx.from) {
            return Err(NftError::Unauthorized(String::from_str("nft is not owned by sender")).wrap());
        }
        match storage.delete_nft(nft_id.as_str()) {
            Err(e) => { return Err(e); }
            Ok(()) => {}
        }
        let mut data = Payload::empty();
        data.nft_id = Some(nft_id);
        data.burned_by = Some(String::from_str(tx.from.as_str()));
        Ok(TransactionResult::success(Some(data)))
    }

    /// Replace an NFT's metadata wholesale: only its owner may update;
    /// there is no partial merge.
    pub fn update_metadata(&self, storage: &mut Storage, tx: &Transaction, now: i64) -> (r: Result<TransactionResult, MemeChainError>)
        requires
            old(storage).inv(),
        ensures
            final(storage).inv(),
            final(storage).infallible() == old(storage).infallible(),
            r matches Ok(res) ==> ({
                &&& res.success && res.error is None
                &&& update_metadata_ok(old(storage).model(), tx@)
                &&& final(storage).model() == update_metadata_model(old(storage).model(), tx@, now)
                &&& update_metadata_result(tx@, res@)
            }),
            tx@.data.nft_id is None ==> r is Err && final(storage).model() == old(storage).model(),
            ({
                &&& tx@.data.nft_id is Some
                &&& stored_nft(old(storage).model(), tx@.data.nft_id->0) matches Some(nv)
                    && nv.owner != tx@.from
            }) ==> r is Err && final(storage).model() == old(storage).model(),
            ({
                &&& old(storage).infallible()
                &&& tx@.data.nft_id is Some
                &&& stored_nft(old(storage).model(), tx@.data.nft_id->0) matches Some(nv)
                    && nv.owner != tx@.from
            }) ==> (r matches Err(e) && is_nft_unauthorized(e)),
            ({
                &&& old(storage).infallible()
                &&& tx@.data.nft_id is Some
                &&& !old(storage).model().contains_key(nft_key(tx@.data.nft_id->0))
            }) ==> (r matches Err(e) && is_nft_not_found(e)),
            old(storage).infallible() ==> (r is Ok <==> update_metadata_ok(old(storage).model(), tx@)),
            old(storage).infallible() ==> (r is Err ==> final(storage).model() == old(storage).model()),
    {
        let nft_id = match &tx.data.nft_id {
            None => { return Err(NftError::InvalidNftId(String::from_str("missing nft id")).wrap()); }
            Some(s) => s.clone(),
        };
        let nft = match storage.get_nft(nft_id.as_str()) {
            Err(e) => { return Err(e); }
            Ok(None) => {
                return Err(NftError::NftNotFound(nft_id).wrap());
            }
            Ok(Some(n)) => n,
        };
        if !(nft.owner == tx.from) {
            return Err(NftError::Unauthorized(String::from_str("nft is not owned by sender")).wrap());
        }
        let metadata = crate::types::clone_opt_string(&tx.data.metadata);
        let updated = Nft { id: nft_id.clone(), metadata, updated_at: now, ..nft };
        match storage.store_nft(&updated) {
            Err(e) => { return Err(e); }
            Ok(()) => {}
        }
        let mut data = Payload::empty();
        data.nft_id = Some(nft_id);
        data.updated_by = Some(String::from_str(tx.from.as_str()));
        Ok(TransactionResult::success(Some(data)))
    }

    /// Get an NFT by id.
    pub fn get_nft(&self, storage: &Storage, nft_id: &str) -> (r: Result<Option<Nft>, MemeChainError>)
        requires
            storage.inv(),
        ensures
            r matches Ok(Some(n)) ==> stored_nft(storage.model(), nft_id@) == Some(n@),
            r matches Ok(None) ==> !storage.model().contains_key(nft_key(nft_id@)),
            storage.infallible() ==> (r is Err <==>
                storage.model().contains_key(nft_key(nft_id@))
                    && stored_nft(storage.model(), nft_id@) is None),
    {
        storage.get_nft(nft_id)
    }

    /// Get a collection by id.
    pub fn get_collection(&self, storage: &Storage, collection_id: &str) -> (r: Result<Option<Collection>, MemeChainError>)
        requires
            storage.inv(),
        ensures
            r matches Ok(Some(c)) ==> stored_collection(storage.model(), collection_id@) == Some(c@),
            r matches Ok(None) ==> !storage.model().contains_key(collection_key(collection_id@)),
            storage.infallible() ==> (r is Err <==>
                storage.model().contains_key(collection_key(collection_id@))
                    && stored_collection(storage.model(), collection_id@) is None),
    {
        storage.get_collection(collection_id)
    }

    /// List all NFTs.
    pub fn list_nfts(&self, storage: &Storage) -> (r: Result<Vec<Nft>, MemeChainError>)
        requires
            storage.inv(),
        ensures
            r matches Ok(ns) ==> nfts_listed(storage.model(), ns@),
            r matches Ok(ns) ==> nfts_complete(storage.model(), ns@),
            storage.infallible() ==> r is Ok,
    {
        storage.get_all_nfts()
    }

    /// List all collections.
    pub fn list_collections(&self, storage: &Storage) -> (r: Result<Vec<Collection>, MemeChainError>)
        requires
            storage.inv(),
        ensures
            r matches Ok(cs) ==> collections_listed(storage.model(), cs@),
            r matches Ok(cs) ==> collections_complete(storage.model(), cs@),
            storage.infallible() ==> r is Ok,
    {
        storage.get_all_collections()
    }

    /// The NFTs that belong to one collection, from a full scan.
    pub fn get_nfts_by_collection(&self, storage: &Storage, collection_id: &str) -> (r: Result<Vec<Nft>, MemeChainError>)
        requires
            storage.inv(),
        ensures
            r matches Ok(ns) ==> nfts_listed(storage.model(), ns@)
                && forall|i: int| 0 <= i < ns@.len() ==> (#[trigger] ns@[i])@.collection_id == collection_id@,
            r matches Ok(ns) ==> forall|k: Seq<char>|
                ("nft:"@.is_prefix_of(k) && (#[trigger] stored_nft_at(storage.model(), k)) is Some
                    && stored_nft_at(storage.model(), k)->0.collection_id == collection_id@)
                ==> exists|i: int| 0 <= i < ns@.len()
                    && (#[trigger] ns@[i])@ == stored_nft_at(storage.model(), k)->0,
            storage.infallible() ==> r is Ok,
    {
        let all = match storage.get_all_nfts() {
            Err(e) => { return Err(e); }
            Ok(ns) => ns,
        };
        let mut out: Vec<Nft> = Vec::new();
        let mut i: usize = 0;
        while i < all.len()
            invariant
                storage.inv(),
                0 <= i <= all@.len(),
                nfts_listed(storage.model(), all@),
                crate::storage::nfts_complete(storage.model(), all@),
                nfts_listed(storage.model(), out@),
                forall|w: int| 0 <= w < out@.len() ==> (#[trigger] out@[w])@.collection_id == collection_id@,
                forall|j: int| 0 <= j < i && (#[trigger] all@[j])@.collection_id == collection_id@
                    ==> exists|w: int| 0 <= w < out@.len() && (#[trigger] out@[w])@ == all@[j]@,
            decreases all@.len() - i,
        {
            let ghost old_out = out@;
            if str_eq(all[i].collection_id.as_str(), collection_id) {
                out.push(all[i].clone());
                proof {
                    assert(out@[out@.len() - 1]@ == all@[i as int]@);
                }
            }
            proof {
                assert forall|j: int| 0 <= j < i + 1 && (#[trigger] all@[j])@.collection_id == collection_id@
                    implies exists|w: int| 0 <= w < out@.len() && (#[trigger] out@[w])@ == all@[j]@ by {
                    if j < i {
                        let w = choose|w: int| 0 <= w < old_out.len() && (#[trigger] old_out[w])@ == all@[j]@;
                        assert(out@[w]@ == all@[j]@);
                    } else {
                        assert(out@[out@.len() - 1]@ == all@[j]@);
                    }
                }
            }
            i += 1;
        }
        proof {
            assert forall|k: Seq<char>|
                ("nft:"@.is_prefix_of(k) && (#[trigger] stored_nft_at(storage.model(), k)) is Some
                    && stored_nft_at(storage.model(), k)->0.collection_id == collection_id@)
                implies exists|w: int| 0 <= w < out@.len()
                    && (#[trigger] out@[w])@ == stored_nft_at(storage.model(), k)->0 by {
                let j = choose|j: int| 0 <= j < all@.len()
                    && (#[trigger] all@[j])@ == stored_nft_at(storage.model(), k)->0;
                assert(all@[j]@.collection_id == collection_id@);
                let w = choose|w: int| 0 <= w < out@.len() && (#[trigger] out@[w])@ == all@[j]@;
                assert(out@[w]@ == stored_nft_at(storage.model(), k)->0);
            }
        }
        Ok(out)
    }

    /// The NFTs owned by one address, from a full scan.
    pub fn get_nfts_by_owner(&self, storage: &Storage, owner: &Address) -> (r: Result<Vec<Nft>, MemeChainError>)
        requires
            storage.inv(),
        ensures
            r matches Ok(ns) ==> nfts_listed(storage.model(), ns@)
                && forall|i: int| 0 <= i < ns@.len() ==> (#[trigger] ns@[i])@.owner == owner@,
            r matches Ok(ns) ==> forall|k: Seq<char>|
                ("nft:"@.is_prefix_of(k) && (#[trigger] stored_nft_at(storage.model(), k)) is Some
                    && stored_nft_at(storage.model(), k)->0.owner == owner@)
                ==> exists|i: int| 0 <= i < ns@.len()
                    && (#[trigger] ns@[i])@ == stored_nft_at(storage.model(), k)->0,
            storage.infallible() ==> r is Ok,
    {
        let all = match storage.get_all_nfts() {
            Err(e) => { return Err(e); }
            Ok(ns) => ns,
        };
        let mut out: Vec<Nft> = Vec::new();
        let mut i: usize = 0;
        while i < all.len()
            invariant
                storage.inv(),
                0 <= i <= all@.len(),
                nfts_listed(storage.model(), all@),
                crate::storage::nfts_complete(storage.model(), all@),
                nfts_listed(storage.model(), out@),
                forall|w: int| 0 <= w < out@.len() ==> (#[trigger] out@[w])@.owner == owner@,
                forall|j: int| 0 <= j < i && (#[trigger] all@[j])@.owner == owner@
                    ==> exists|w: int| 0 <= w < out@.len() && (#[trigger] out@[w])@ == all@[j]@,
            decreases all@.len() - i,
        {
            let ghost old_out = out@;
            if str_eq(all[i].owner.as_str(), owner.as_str()) {
                out.push(all[i].clone());
                proof {
                    assert(out@[out@.len() - 1]@ == all@[i as int]@);
                }
            }
            proof {
                assert forall|j: int| 0 <= j < i + 1 && (#[trigger] all@[j])@.owner == owner@
                    implies exists|w: int| 0 <= w < out@.len() && (#[trigger] out@[w])@ == all@[j]@ by {
                    if j < i {
                        let w = choose|w: int| 0 <= w < old_out.len() && (#[trigger] old_out[w])@ == all@[j]@;
                        assert(out@[w]@ == all@[j]@);
                    } else {
                        assert(out@[out@.len() - 1]@ == all@[j]@);
                    }
                }
            }
            i += 1;
        }
        proof {
            assert forall|k: Seq<char>|
                ("nft:"@.is_prefix_of(k) && (#[trigger] stored_nft_at(storage.model(), k)) is Some
                    && stored_nft_at(storage.model(), k)->0.owner == owner@)
                implies exists|w: int| 0 <= w < out@.len()
                    && (#[trigger] out@[w])@ == stored_nft_at(storage.model(), k)->0 by {
                let j = choose|j: int| 0 <= j < all@.len()
                    && (#[trigger] all@[j])@ == stored_nft_at(storage.model(), k)->0;
                assert(all@[j]@.owner == owner@);
                let w = choose|w: int| 0 <= w < out@.len() && (#[trigger] out@[w])@ == all@[j]@;
                assert(out@[w]@ == stored_nft_at(storage.model(), k)->0);
            }
        }
        Ok(out)
    }
}

} // verus!
