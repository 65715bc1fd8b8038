//! The byte-oriented key-value storage abstraction and its two
//! interchangeable backends: a verified in-memory store and an
//! embedded log-structured store, plus the domain-typed accessors
//! that persist the ledger's records under namespaced keys.

use vstd::prelude::*;
use vstd::seq_lib::*;
use crate::error::{MemeChainError, StorageError};
use crate::types::{Address, Balance, BalanceV, Block, Collection, CollectionV, Nft, NftV, Token, TokenV};
use crate::codec::{enc_balance, enc_token, enc_nft, enc_collection, enc_block, encode_balance, encode_token, encode_nft, encode_collection, encode_block, dec_balance, dec_token, dec_nft, dec_collection, dec_block, len_bound, lemma_enc_balance_inj, lemma_enc_token_inj, lemma_enc_nft_inj, lemma_enc_collection_inj};
use crate::common::{dec_digits, u64_to_dec_string};

verus! {

// ---------------------------------------------------------------------
// Namespaced keys
// ---------------------------------------------------------------------

/// The key of a block record.
pub open spec fn block_key(height: u64) -> Seq<char> {
    "block:"@ + dec_digits(height as int)
}

/// The key of a token record.
pub open spec fn token_key(symbol: Seq<char>) -> Seq<char> {
    "token:"@ + symbol
}

/// The key of an NFT record.
pub open spec fn nft_key(id: Seq<char>) -> Seq<char> {
    "nft:"@ + id
}

/// The key of a collection record.
pub open spec fn collection_key(id: Seq<char>) -> Seq<char> {
    "collection:"@ + id
}

/// The key of a balance record.
pub open spec fn balance_key(address: Seq<char>, token: Seq<char>) -> Seq<char> {
    "balance:"@ + address + ":"@ + token
}

/// Build a block key.
pub fn make_block_key(height: u64) -> (r: String)
    ensures
        r@ == block_key(height),
{
    String::from_str("block:").concat(u64_to_dec_string(height).as_str())
}

/// Build a token key.
pub fn make_token_key(symbol: &str) -> (r: String)
    ensures
        r@ == token_key(symbol@),
{
    String::from_str("token:").concat(symbol)
}

/// Build an NFT key.
pub fn make_nft_key(id: &str) -> (r: String)
    ensures
        r@ == nft_key(id@),
{
    String::from_str("nft:").concat(id)
}

/// Build a collection key.
pub fn make_collection_key(id: &str) -> (r: String)
    ensures
        r@ == collection_key(id@),
{
    String::from_str("collection:").concat(id)
}

/// Build a balance key.
pub fn make_balance_key(address: &str, token: &str) -> (r: String)
    ensures
        r@ == balance_key(address@, token@),
{
    let mut s = String::from_str("balance:");
    s.append(address);
    s.append(":");
    s.append(token);
    proof {
        assert(s@ =~= balance_key(address@, token@));
    }
    s
}

// ---------------------------------------------------------------------
// Batches
// ---------------------------------------------------------------------

/// The view of a batch operation list: keys with either a put value or
/// a delete.
pub open spec fn ops_view(v: Seq<(String, Option<Vec<u8>>)>) -> Seq<(Seq<char>, Option<Seq<u8>>)> {
    Seq::new(v.len(), |i: int| (v[i].0@, match v[i].1 {
        Some(b) => Some(b@),
        None => None,
    }))
}

/// Apply a batch to a store model, in order: a present value puts, an
/// absent one deletes.
pub open spec fn apply_ops(m: Map<Seq<char>, Seq<u8>>, ops: Seq<(Seq<char>, Option<Seq<u8>>)>) -> Map<Seq<char>, Seq<u8>>
    decreases ops.len(),
{
    if ops.len() == 0 {
        m
    } else {
        let m1 = apply_ops(m, ops.drop_last());
        match ops.last().1 {
            Some(v) => m1.insert(ops.last().0, v),
            None => m1.remove(ops.last().0),
        }
    }
}

/// A correct prefix scan: every listed key is present and carries the
/// prefix, and every present key with the prefix is listed.
pub open spec fn scan_ok(m: Map<Seq<char>, Seq<u8>>, prefix: Seq<char>, keys: Seq<String>) -> bool {
    &&& forall|i: int| 0 <= i < keys.len()
        ==> prefix.is_prefix_of(#[trigger] keys[i]@) && m.contains_key(keys[i]@)
    &&& forall|k: Seq<char>| m.contains_key(k) && prefix.is_prefix_of(k)
        ==> exists|i: int| 0 <= i < keys.len() && #[trigger] keys[i]@ == k
}

// ---------------------------------------------------------------------
// The backend interface
// ---------------------------------------------------------------------

/// Storage trait for the interchangeable database backends: a string
/// keyed byte store with prefix scans and an atomic batch write.
pub trait StorageBackend: Sized {
    /// The store's contents as a map from keys to byte values.
    spec fn model(&self) -> Map<Seq<char>, Seq<u8>>;

    /// The backend's internal invariant.
    spec fn inv(&self) -> bool;

    /// Whether this backend can fail: the in-memory backend cannot,
    /// the embedded store can fail on I/O.
    spec fn infallible(&self) -> bool;

    /// Initialize the storage.
    fn initialize(&self) -> (r: Result<(), MemeChainError>)
        requires
            self.inv(),
        ensures
            self.infallible() ==> r is Ok,
    ;

    /// Get a value by key.
    fn get(&self, key: &String) -> (r: Result<Option<Vec<u8>>, MemeChainError>)
        requires
            self.inv(),
        ensures
            r matches Ok(Some(v)) ==> self.model().contains_key(key@) && v@ == self.model()[key@],
            r matches Ok(None) ==> !self.model().contains_key(key@),
            self.infallible() ==> r is Ok,
    ;

    /// Set a key-value pair.
    fn set(&mut self, key: String, value: Vec<u8>) -> (r: Result<(), MemeChainError>)
        requires
            old(self).inv(),
        ensures
            final(self).inv(),
            final(self).infallible() == old(self).infallible(),
            r is Ok ==> final(self).model() == old(self).model().insert(key@, value@),
            old(self).infallible() ==> r is Ok,
    ;

    /// Delete a key.
    fn delete(&mut self, key: &String) -> (r: Result<(), MemeChainError>)
        requires
            old(self).inv(),
        ensures
            final(self).inv(),
            final(self).infallible() == old(self).infallible(),
            r is Ok ==> final(self).model() == old(self).model().remove(key@),
            old(self).infallible() ==> r is Ok,
    ;

    /// Check whether a key exists.
    fn exists_key(&self, key: &String) -> (r: Result<bool, MemeChainError>)
        requires
            self.inv(),
        ensures
            r matches Ok(b) ==> b == self.model().contains_key(key@),
            self.infallible() ==> r is Ok,
    ;

    /// All keys that start with the given prefix: every returned key
    /// is present and prefixed, and every present prefixed key is
    /// returned.
    fn get_keys_with_prefix(&self, prefix: &String) -> (r: Result<Vec<String>, MemeChainError>)
        requires
            self.inv(),
        ensures
            r matches Ok(keys) ==> scan_ok(self.model(), prefix@, keys@),
            self.infallible() ==> r is Ok,
    ;

    /// Apply a batch of puts and deletes atomically, as one unit.
    fn batch_write(&mut self, ops: Vec<(String, Option<Vec<u8>>)>) -> (r: Result<(), MemeChainError>)
        requires
            old(self).inv(),
        ensures
            final(self).inv(),
            final(self).infallible() == old(self).infallible(),
            r is Ok ==> final(self).model() == apply_ops(old(self).model(), ops_view(ops@)),
            old(self).infallible() ==> r is Ok,
    ;
}

// ---------------------------------------------------------------------
// The verified in-memory backend
// ---------------------------------------------------------------------

/// The index of the entry holding a key.
spec fn idx_of(es: Seq<(String, Vec<u8>)>, k: Seq<char>) -> int {
    choose|i: int| 0 <= i < es.len() && es[i].0@ == k
}

/// An in-memory backend: an association vector with unique keys.
#[derive(Debug)]
pub struct MemBackend {
    entries: Vec<(String, Vec<u8>)>,
}

impl MemBackend {
    /// Create an empty in-memory backend.
    pub fn new() -> (r: Self)
        ensures
            r.inv(),
            r.infallible(),
            r.model() == Map::<Seq<char>, Seq<u8>>::empty(),
    {
        let r = MemBackend { entries: Vec::new() };
        proof {
            assert(r.model() =~= Map::<Seq<char>, Seq<u8>>::empty());
        }
        r
    }

    /// Find the entry holding a key.
    fn find(&self, key: &String) -> (r: Option<usize>)
        ensures
            r matches Some(i) ==> i < self.entries@.len() && self.entries@[i as int].0@ == key@,
            r is None ==> forall|i: int| 0 <= i < self.entries@.len()
                ==> (#[trigger] self.entries@[i]).0@ != key@,
    {
        let n = self.entries.len();
        let mut i: usize = 0;
        while i < n
            invariant
                0 <= i <= n,
                n == self.entries@.len(),
                forall|j: int| 0 <= j < i ==> (#[trigger] self.entries@[j]).0@ != key@,
            decreases n - i,
        {
            if self.entries[i].0 == *key {
                return Some(i);
            }
            i += 1;
        }
        None
    }
}

impl StorageBackend for MemBackend {
    closed spec fn model(&self) -> Map<Seq<char>, Seq<u8>> {
        Map::new(
            |k: Seq<char>| exists|i: int| 0 <= i < self.entries@.len() && (#[trigger] self.entries@[i]).0@ == k,
            |k: Seq<char>| self.entries@[idx_of(self.entries@, k)].1@,
        )
    }

    closed spec fn inv(&self) -> bool {
        forall|i: int, j: int| 0 <= i < j < self.entries@.len()
            ==> (#[trigger] self.entries@[i]).0@ != (#[trigger] self.entries@[j]).0@
    }

    open spec fn infallible(&self) -> bool {
        true
    }

    fn initialize(&self) -> (r: Result<(), MemeChainError>) {
        Ok(())
    }

    fn get(&self, key: &String) -> (r: Result<Option<Vec<u8>>, MemeChainError>) {
        match self.find(key) {
            None => {
                proof {
                    assert(!self.model().contains_key(key@));
                }
                Ok(None)
            }
            Some(i) => {
                let v = vstd::slice::slice_to_vec(self.entries[i].1.as_slice());
                proof {
                    assert(self.model().contains_key(key@));
                    let w = idx_of(self.entries@, key@);
                    assert(0 <= w < self.entries@.len() && self.entries@[w].0@ == key@);
                    assert(w == i);
                }
                Ok(Some(v))
            }
        }
    }

    fn set(&mut self, key: String, value: Vec<u8>) -> (r: Result<(), MemeChainError>) {
        let ghost old_es = self.entries@;
        match self.find(&key) {
            Some(i) => {
                self.entries.set(i, (key, value));
                proof {
                    let es = self.entries@;
                    let k0 = es[i as int].0@;
                    assert forall|a: int, b: int| 0 <= a < b < es.len()
                        implies (#[trigger] es[a]).0@ != (#[trigger] es[b]).0@ by {
                        assert(old_es[a].0@ != old_es[b].0@);
                    }
                    lemma_mem_set_model(old_es, es, i as int);
                }
                Ok(())
            }
            None => {
                self.entries.push((key, value));
                proof {
                    let es = self.entries@;
                    assert forall|a: int, b: int| 0 <= a < b < es.len()
                        implies (#[trigger] es[a]).0@ != (#[trigger] es[b]).0@ by {
                        if b < es.len() - 1 {
                            assert(old_es[a].0@ != old_es[b].0@);
                        } else {
                            assert(old_es[a].0@ != es[b].0@);
                        }
                    }
                    lemma_mem_push_model(old_es, es);
                }
                Ok(())
            }
        }
    }

    fn delete(&mut self, key: &String) -> (r: Result<(), MemeChainError>) {
        let ghost old_es = self.entries@;
        match self.find(key) {
            None => {
                proof {
                    assert(self.model() =~= self.model().remove(key@));
                }
                Ok(())
            }
            Some(i) => {
                self.entries.remove(i);
                proof {
                    let es = self.entries@;
                    assert forall|a: int, b: int| 0 <= a < b < es.len()
                        implies (#[trigger] es[a]).0@ != (#[trigger] es[b]).0@ by {
                        let a0 = if a < i { a } else { a + 1 };
                        let b0 = if b < i { b } else { b + 1 };
                        assert(es[a] == old_es[a0]);
                        assert(es[b] == old_es[b0]);
                        assert(old_es[a0].0@ != old_es[b0].0@);
                    }
                    lemma_mem_remove_model(old_es, es, i as int);
                }
                Ok(())
            }
        }
    }

    fn exists_key(&self, key: &String) -> (r: Result<bool, MemeChainError>) {
        match self.find(key) {
            Some(_) => Ok(true),
            None => {
                proof {
                    assert(!self.model().contains_key(key@));
                }
                Ok(false)
            }
        }
    }

    #[verifier::rlimit(100)]
    fn get_keys_with_prefix(&self, prefix: &String) -> (r: Result<Vec<String>, MemeChainError>) {
        let n = self.entries.len();
        let mut keys: Vec<String> = Vec::new();
        let mut i: usize = 0;
        while i < n
            invariant
                0 <= i <= n,
                n == self.entries@.len(),
                self.inv(),
                forall|m: int| 0 <= m < keys@.len()
                    ==> prefix@.is_prefix_of(#[trigger] keys@[m]@)
                        && self.model().contains_key(keys@[m]@),
                forall|j: int| 0 <= j < i && prefix@.is_prefix_of((#[trigger] self.entries@[j]).0@)
                    ==> exists|m: int| 0 <= m < keys@.len() && (#[trigger] keys@[m])@ == self.entries@[j].0@,
            decreases n - i,
        {
            let ghost old_keys = keys@;
            let p = str_has_prefix(self.entries[i].0.as_str(), prefix.as_str());
            if p {
                keys.push(self.entries[i].0.clone());
                proof {
                    let ki = self.entries@[i as int].0@;
                    assert(0 <= i < self.entries@.len() && self.entries@[i as int].0@ == ki);
                    assert(self.model().contains_key(ki));
                }
            }
            proof {
                assert forall|j: int| 0 <= j < i + 1 && prefix@.is_prefix_of((#[trigger] self.entries@[j]).0@)
                    implies exists|m: int| 0 <= m < keys@.len() && (#[trigger] keys@[m])@ == self.entries@[j].0@ by {
                    if j < i {
                        let m = choose|m: int| 0 <= m < old_keys.len() && (#[trigger] old_keys[m])@ == self.entries@[j].0@;
                        assert(keys@[m]@ == self.entries@[j].0@);
                    } else {
                        assert(keys@[old_keys.len() as int]@ == self.entries@[j].0@);
                    }
                }
            }
            i += 1;
        }
        proof {
            assert forall|k: Seq<char>| self.model().contains_key(k) && prefix@.is_prefix_of(k)
                implies exists|m: int| 0 <= m < keys@.len() && #[trigger] keys@[m]@ == k by {
                let j = choose|j: int| 0 <= j < self.entries@.len() && (#[trigger] self.entries@[j]).0@ == k;
                assert(prefix@.is_prefix_of(self.entries@[j].0@));
                let m = choose|m: int| 0 <= m < keys@.len() && (#[trigger] keys@[m])@ == self.entries@[j].0@;
                assert(keys@[m]@ == k);
            }
            assert(scan_ok(self.model(), prefix@, keys@));
        }
        Ok(keys)
    }

    fn batch_write(&mut self, ops: Vec<(String, Option<Vec<u8>>)>) -> (r: Result<(), MemeChainError>) {
        let n = ops.len();
        let mut i: usize = 0;
        proof {
            assert(ops_view(ops@).take(0) =~= Seq::<(Seq<char>, Option<Seq<u8>>)>::empty());
        }
        while i < n
            invariant
                0 <= i <= n,
                n == ops@.len(),
                self.inv(),
                self.infallible(),
                self.model() == apply_ops(old(self).model(), ops_view(ops@).take(i as int)),
            decreases n - i,
        {
            let key = ops[i].0.clone();
            let ghost pre = self.model();
            match &ops[i].1 {
                Some(v) => {
                    let value = vstd::slice::slice_to_vec(v.as_slice());
                    let res = self.set(key, value);
                    proof {
                        assert(res is Ok);
                    }
                }
                None => {
                    let res = self.delete(&key);
                    proof {
                        assert(res is Ok);
                    }
                }
            }
            proof {
                let t1 = ops_view(ops@).take(i as int + 1);
                assert(t1.drop_last() =~= ops_view(ops@).take(i as int));
                assert(t1.last() == ops_view(ops@)[i as int]);
                assert(self.model() == apply_ops(old(self).model(), t1));
            }
            i += 1;
        }
        proof {
            assert(ops_view(ops@).take(n as int) =~= ops_view(ops@));
        }
        Ok(())
    }
}

/// Replacing the entry at `i` updates the model at that entry's key.
proof fn lemma_mem_set_model(old_es: Seq<(String, Vec<u8>)>, es: Seq<(String, Vec<u8>)>, i: int)
    requires
        0 <= i < old_es.len(),
        es.len() == old_es.len(),
        forall|j: int| 0 <= j < old_es.len() && j != i ==> #[trigger] es[j] == old_es[j],
        forall|a: int, b: int| 0 <= a < b < old_es.len()
            ==> (#[trigger] old_es[a]).0@ != (#[trigger] old_es[b]).0@,
        forall|a: int, b: int| 0 <= a < b < es.len()
            ==> (#[trigger] es[a]).0@ != (#[trigger] es[b]).0@,
        es[i].0@ == old_es[i].0@,
    ensures
        mem_model(es) == mem_model(old_es).insert(es[i].0@, es[i].1@),
{
    let m0 = mem_model(old_es);
    let m1 = mem_model(es);
    assert forall|k: Seq<char>| m1.contains_key(k) <==> m0.insert(es[i].0@, es[i].1@).contains_key(k) by {
        if k == es[i].0@ {
            assert(es[i].0@ == k);
        } else {
            if exists|j: int| 0 <= j < es.len() && (#[trigger] es[j]).0@ == k {
                let j = choose|j: int| 0 <= j < es.len() && (#[trigger] es[j]).0@ == k;
                assert(old_es[j].0@ == k);
            }
            if exists|j: int| 0 <= j < old_es.len() && (#[trigger] old_es[j]).0@ == k {
                let j = choose|j: int| 0 <= j < old_es.len() && (#[trigger] old_es[j]).0@ == k;
                assert(es[j].0@ == k);
            }
        }
    }
    assert forall|k: Seq<char>| m1.contains_key(k)
        implies m1[k] == m0.insert(es[i].0@, es[i].1@)[k] by {
        let w = idx_of(es, k);
        assert(0 <= w < es.len() && es[w].0@ == k);
        if k == es[i].0@ {
            assert(w == i);
        } else {
            assert(w != i);
            let w0 = idx_of(old_es, k);
            assert(0 <= w0 < old_es.len() && old_es[w0].0@ == k);
            assert(w0 != i);
            if w0 != w {
                if w0 < w {
                    assert(es[w0].0@ != es[w].0@);
                } else {
                    assert(es[w].0@ != es[w0].0@);
                }
            }
        }
    }
    assert(m1 =~= m0.insert(es[i].0@, es[i].1@));
}

/// Pushing a fresh entry inserts its key into the model.
proof fn lemma_mem_push_model(old_es: Seq<(String, Vec<u8>)>, es: Seq<(String, Vec<u8>)>)
    requires
        es.len() == old_es.len() + 1,
        forall|j: int| 0 <= j < old_es.len() ==> #[trigger] es[j] == old_es[j],
        forall|j: int| 0 <= j < old_es.len() ==> (#[trigger] old_es[j]).0@ != es[es.len() - 1].0@,
        forall|a: int, b: int| 0 <= a < b < es.len()
            ==> (#[trigger] es[a]).0@ != (#[trigger] es[b]).0@,
    ensures
        mem_model(es) == mem_model(old_es).insert(es[es.len() - 1].0@, es[es.len() - 1].1@),
{
    let m0 = mem_model(old_es);
    let m1 = mem_model(es);
    let kn = es[es.len() - 1].0@;
    assert forall|k: Seq<char>| m1.contains_key(k) <==> m0.insert(kn, es[es.len() - 1].1@).contains_key(k) by {
        if k == kn {
            assert(es[es.len() - 1].0@ == k);
        } else {
            if exists|j: int| 0 <= j < es.len() && (#[trigger] es[j]).0@ == k {
                let j = choose|j: int| 0 <= j < es.len() && (#[trigger] es[j]).0@ == k;
                assert(j < old_es.len());
                assert(old_es[j].0@ == k);
            }
            if exists|j: int| 0 <= j < old_es.len() && (#[trigger] old_es[j]).0@ == k {
                let j = choose|j: int| 0 <= j < old_es.len() && (#[trigger] old_es[j]).0@ == k;
                assert(es[j].0@ == k);
            }
        }
    }
    assert forall|k: Seq<char>| m1.contains_key(k)
        implies m1[k] == m0.insert(kn, es[es.len() - 1].1@)[k] by {
        let w = idx_of(es, k);
        assert(0 <= w < es.len() && es[w].0@ == k);
        if k == kn {
            assert(w == es.len() - 1);
        } else {
            assert(w < old_es.len());
            let w0 = idx_of(old_es, k);
            assert(0 <= w0 < old_es.len() && old_es[w0].0@ == k);
            if w0 != w {
                if w0 < w {
                    assert(es[w0].0@ != es[w].0@);
                } else {
                    assert(es[w].0@ != es[w0].0@);
                }
            }
        }
    }
    assert(m1 =~= m0.insert(kn, es[es.len() - 1].1@));
}

/// Removing the entry at `i` removes that entry's key from the model.
proof fn lemma_mem_remove_model(old_es: Seq<(String, Vec<u8>)>, es: Seq<(String, Vec<u8>)>, i: int)
    requires
        0 <= i < old_es.len(),
        es.len() == old_es.len() - 1,
        forall|j: int| 0 <= j < i ==> #[trigger] es[j] == old_es[j],
        forall|j: int| i <= j < es.len() ==> #[trigger] es[j] == old_es[j + 1],
        forall|a: int, b: int| 0 <= a < b < old_es.len()
            ==> (#[trigger] old_es[a]).0@ != (#[trigger] old_es[b]).0@,
        forall|a: int, b: int| 0 <= a < b < es.len()
            ==> (#[trigger] es[a]).0@ != (#[trigger] es[b]).0@,
    ensures
        mem_model(es) == mem_model(old_es).remove(old_es[i].0@),
{
    let m0 = mem_model(old_es);
    let m1 = mem_model(es);
    let kr = old_es[i].0@;
    assert forall|k: Seq<char>| m1.contains_key(k) <==> m0.remove(kr).contains_key(k) by {
        if exists|j: int| 0 <= j < es.len() && (#[trigger] es[j]).0@ == k {
            let j = choose|j: int| 0 <= j < es.len() && (#[trigger] es[j]).0@ == k;
            let j0 = if j < i { j } else { j + 1 };
            assert(old_es[j0].0@ == k);
            assert(j0 != i || k == kr);
            if k == kr {
                assert(old_es[j0].0@ == old_es[i].0@);
                assert(j0 == i);
                assert(false);
            }
        }
        if k != kr && exists|j: int| 0 <= j < old_es.len() && (#[trigger] old_es[j]).0@ == k {
            let j0 = choose|j: int| 0 <= j < old_es.len() && (#[trigger] old_es[j]).0@ == k;
            assert(j0 != i);
            let j = if j0 < i { j0 } else { j0 - 1 };
            assert(es[j].0@ == k);
        }
    }
    assert forall|k: Seq<char>| m1.contains_key(k)
        implies m1[k] == m0.remove(kr)[k] by {
        let w = idx_of(es, k);
        assert(0 <= w < es.len() && es[w].0@ == k);
        let w0 = if w < i { w } else { w + 1 };
        assert(old_es[w0].0@ == k);
        let wc = idx_of(old_es, k);
        assert(0 <= wc < old_es.len() && old_es[wc].0@ == k);
        if wc != w0 {
            if wc < w0 {
                assert(old_es[wc].0@ != old_es[w0].0@);
            } else {
                assert(old_es[w0].0@ != old_es[wc].0@);
            }
        }
    }
    assert(m1 =~= m0.remove(kr));
}

/// The model of an entry sequence, spelled out for the update lemmas.
spec fn mem_model(es: Seq<(String, Vec<u8>)>) -> Map<Seq<char>, Seq<u8>> {
    Map::new(
        |k: Seq<char>| exists|i: int| 0 <= i < es.len() && (#[trigger] es[i]).0@ == k,
        |k: Seq<char>| es[idx_of(es, k)].1@,
    )
}

/// Whether one string slice is a prefix of another.
pub fn str_has_prefix(s: &str, p: &str) -> (r: bool)
    ensures
        r == p@.is_prefix_of(s@),
{
    let ns = s.unicode_len();
    let np = p.unicode_len();
    if np > ns {
        return false;
    }
    let mut i: usize = 0;
    while i < np
        invariant
            0 <= i <= np,
            np == p@.len(),
            ns == s@.len(),
            np <= ns,
            forall|j: int| 0 <= j < i ==> p@[j] == s@[j],
        decreases np - i,
    {
        if s.get_char(i) != p.get_char(i) {
            proof {
                assert(s@.subrange(0, np as int)[i as int] == s@[i as int]);
            }
            return false;
        }
        i += 1;
    }
    proof {
        assert(p@ =~= s@.subrange(0, np as int));
    }
    true
}


// ---------------------------------------------------------------------
// The embedded log-structured backend
// ---------------------------------------------------------------------

#[verifier::external_type_specification]
#[verifier::external_body]
pub struct ExSledDb(sled::Db);

/// An embedded log-structured store. The handle is opaque; its
/// contents are tracked through the model alone.
#[verifier::external_body]
#[derive(Debug)]
pub struct SledBackend {
    db: sled::Db,
}

/// What the embedded store holds: the string-keyed byte records that
/// were put and not deleted.
pub uninterp spec fn sled_contents(s: &SledBackend) -> Map<Seq<char>, Seq<u8>>;

impl SledBackend {
    /// Wrap an already opened database handle.
    #[verifier::external_body]
    pub fn from_db(db: sled::Db) -> (r: SledBackend) {
        SledBackend { db }
    }
}

impl SledBackend {
    /// Relies on sled::Tree::get: returns the value last successfully
    /// put under the key and not deleted since, or nothing.
    #[verifier::external_body]
    fn get_raw(&self, key: &String) -> (r: Result<Option<Vec<u8>>, MemeChainError>)
        ensures
            r matches Ok(Some(v)) ==> sled_contents(self).contains_key(key@) && v@ == sled_contents(self)[key@],
            r matches Ok(None) ==> !sled_contents(self).contains_key(key@),
    {
        match self.db.get(key.as_bytes()) {
            Ok(Some(v)) => Ok(Some(v.to_vec())),
            Ok(None) => Ok(None),
            Err(e) => Err(MemeChainError::Storage(StorageError::ReadFailed(e.to_string()))),
        }
    }

    /// Relies on sled::Tree::insert: on success the key maps to the
    /// given value and nothing else changes.
    #[verifier::external_body]
    fn set_raw(&mut self, key: String, value: Vec<u8>) -> (r: Result<(), MemeChainError>)
        ensures
            r is Ok ==> sled_contents(final(self)) == sled_contents(old(self)).insert(key@, value@),
    {
        match self.db.insert(key.as_bytes(), value) {
            Ok(_) => Ok(()),
            Err(e) => Err(MemeChainError::Storage(StorageError::WriteFailed(e.to_string()))),
        }
    }

    /// Relies on sled::Tree::remove: on success the key is absent and
    /// nothing else changes.
    #[verifier::external_body]
    fn delete_raw(&mut self, key: &String) -> (r: Result<(), MemeChainError>)
        ensures
            r is Ok ==> sled_contents(final(self)) == sled_contents(old(self)).remove(key@),
    {
        match self.db.remove(key.as_bytes()) {
            Ok(_) => Ok(()),
            Err(e) => Err(MemeChainError::Storage(StorageError::WriteFailed(e.to_string()))),
        }
    }

    /// Relies on sled::Tree::contains_key.
    #[verifier::external_body]
    fn exists_raw(&self, key: &String) -> (r: Result<bool, MemeChainError>)
        ensures
            r matches Ok(b) ==> b == sled_contents(self).contains_key(key@),
    {
        match self.db.contains_key(key.as_bytes()) {
            Ok(b) => Ok(b),
            Err(e) => Err(MemeChainError::Storage(StorageError::ReadFailed(e.to_string()))),
        }
    }

    /// Relies on sled::Tree::scan_prefix: iterates exactly the stored
    /// records whose keys start with the byte prefix, so the listed
    /// keys are the held keys carrying the prefix.
    #[verifier::external_body]
    fn scan_raw(&self, prefix: &String) -> (r: Result<Vec<String>, MemeChainError>)
        ensures
            r matches Ok(keys) ==> scan_ok(sled_contents(self), prefix@, keys@),
    {
        let mut keys = Vec::new();
        for item in self.db.scan_prefix(prefix.as_bytes()) {
            let (k, _v) = match item {
                Ok(kv) => kv,
                Err(e) => { return Err(MemeChainError::Storage(StorageError::ReadFailed(e.to_string()))); }
            };
            match String::from_utf8(k.to_vec()) {
                Ok(s) => keys.push(s),
                Err(e) => { return Err(MemeChainError::Storage(StorageError::CorruptedData(e.to_string()))); }
            }
        }
        Ok(keys)
    }

    /// Relies on sled::Tree::apply_batch: the puts and deletes are
    /// applied in order, atomically, as one unit.
    #[verifier::external_body]
    fn batch_raw(&mut self, ops: Vec<(String, Option<Vec<u8>>)>) -> (r: Result<(), MemeChainError>)
        ensures
            r is Ok ==> sled_contents(final(self)) == apply_ops(sled_contents(old(self)), ops_view(ops@)),
    {
        let mut batch = sled::Batch::default();
        for (key, value) in ops {
            match value {
                Some(v) => batch.insert(key.as_bytes(), v),
                None => batch.remove(key.as_bytes()),
            }
        }
        match self.db.apply_batch(batch) {
            Ok(()) => Ok(()),
            Err(e) => Err(MemeChainError::Storage(StorageError::WriteFailed(e.to_string()))),
        }
    }
}

impl StorageBackend for SledBackend {
    closed spec fn model(&self) -> Map<Seq<char>, Seq<u8>> {
        sled_contents(self)
    }

    open spec fn inv(&self) -> bool {
        true
    }

    open spec fn infallible(&self) -> bool {
        false
    }

    fn initialize(&self) -> (r: Result<(), MemeChainError>) {
        Ok(())
    }

    fn get(&self, key: &String) -> (r: Result<Option<Vec<u8>>, MemeChainError>) {
        self.get_raw(key)
    }

    fn set(&mut self, key: String, value: Vec<u8>) -> (r: Result<(), MemeChainError>) {
        self.set_raw(key, value)
    }

    fn delete(&mut self, key: &String) -> (r: Result<(), MemeChainError>) {
        self.delete_raw(key)
    }

    fn exists_key(&self, key: &String) -> (r: Result<bool, MemeChainError>) {
        self.exists_raw(key)
    }

    fn get_keys_with_prefix(&self, prefix: &String) -> (r: Result<Vec<String>, MemeChainError>) {
        self.scan_raw(prefix)
    }

    fn batch_write(&mut self, ops: Vec<(String, Option<Vec<u8>>)>) -> (r: Result<(), MemeChainError>) {
        self.batch_raw(ops)
    }
}

// ---------------------------------------------------------------------
// The backend selection
// ---------------------------------------------------------------------

/// The concrete backend a storage was built over.
#[derive(Debug)]
pub enum Backend {
    Mem(MemBackend),
    Sled(SledBackend),
}

impl StorageBackend for Backend {
    closed spec fn model(&self) -> Map<Seq<char>, Seq<u8>> {
        match self {
            Backend::Mem(b) => b.model(),
            Backend::Sled(b) => b.model(),
        }
    }

    closed spec fn inv(&self) -> bool {
        match self {
            Backend::Mem(b) => b.inv(),
            Backend::Sled(b) => b.inv(),
        }
    }

    closed spec fn infallible(&self) -> bool {
        match self {
            Backend::Mem(b) => b.infallible(),
            Backend::Sled(b) => b.infallible(),
        }
    }

    fn initialize(&self) -> (r: Result<(), MemeChainError>) {
        match self {
            Backend::Mem(b) => b.initialize(),
            Backend::Sled(b) => b.initialize(),
        }
    }

    fn get(&self, key: &String) -> (r: Result<Option<Vec<u8>>, MemeChainError>) {
        match self {
            Backend::Mem(b) => b.get(key),
            Backend::Sled(b) => b.get(key),
        }
    }

    fn set(&mut self, key: String, value: Vec<u8>) -> (r: Result<(), MemeChainError>) {
        match self {
            Backend::Mem(b) => b.set(key, value),
            Backend::Sled(b) => b.set(key, value),
        }
    }

    fn delete(&mut self, key: &String) -> (r: Result<(), MemeChainError>) {
        match self {
            Backend::Mem(b) => b.delete(key),
            Backend::Sled(b) => b.delete(key),
        }
    }

    fn exists_key(&self, key: &String) -> (r: Result<bool, MemeChainError>) {
        match self {
            Backend::Mem(b) => b.exists_key(key),
            Backend::Sled(b) => b.exists_key(key),
        }
    }

    fn get_keys_with_prefix(&self, prefix: &String) -> (r: Result<Vec<String>, MemeChainError>) {
        match self {
            Backend::Mem(b) => b.get_keys_with_prefix(prefix),
            Backend::Sled(b) => b.get_keys_with_prefix(prefix),
        }
    }

    fn batch_write(&mut self, ops: Vec<(String, Option<Vec<u8>>)>) -> (r: Result<(), MemeChainError>) {
        match self {
            Backend::Mem(b) => b.batch_write(ops),
            Backend::Sled(b) => b.batch_write(ops),
        }
    }
}

// ---------------------------------------------------------------------
// Stored records
// ---------------------------------------------------------------------

/// A balance record small enough for its length prefixes to be
/// faithful.
pub open spec fn bounded_bal(bv: BalanceV) -> bool {
    enc_balance(bv).len() < len_bound()
}

/// A token record small enough for its length prefixes to be faithful.
pub open spec fn bounded_token(tv: TokenV) -> bool {
    enc_token(tv).len() < len_bound()
}

/// An NFT record small enough for its length prefixes to be faithful.
pub open spec fn bounded_nft(nv: NftV) -> bool {
    enc_nft(nv).len() < len_bound()
}

/// A collection record small enough for its length prefixes to be
/// faithful.
pub open spec fn bounded_collection(cv: CollectionV) -> bool {
    enc_collection(cv).len() < len_bound()
}

/// The token record a store holds under an arbitrary key, when the
/// bytes there are a token encoding.
pub open spec fn stored_token_at(m: Map<Seq<char>, Seq<u8>>, k: Seq<char>) -> Option<TokenV> {
    if m.contains_key(k) && (exists|tv: TokenV| bounded_token(tv) && m[k] == enc_token(tv)) {
        Some(choose|tv: TokenV| bounded_token(tv) && m[k] == enc_token(tv))
    } else {
        None
    }
}

/// The balance record a store holds under an arbitrary key.
pub open spec fn stored_balance_at(m: Map<Seq<char>, Seq<u8>>, k: Seq<char>) -> Option<BalanceV> {
    if m.contains_key(k) && (exists|bv: BalanceV| bounded_bal(bv) && m[k] == enc_balance(bv)) {
        Some(choose|bv: BalanceV| bounded_bal(bv) && m[k] == enc_balance(bv))
    } else {
        None
    }
}

/// The NFT record a store holds under an arbitrary key.
pub open spec fn stored_nft_at(m: Map<Seq<char>, Seq<u8>>, k: Seq<char>) -> Option<NftV> {
    if m.contains_key(k) && (exists|nv: NftV| bounded_nft(nv) && m[k] == enc_nft(nv)) {
        Some(choose|nv: NftV| bounded_nft(nv) && m[k] == enc_nft(nv))
    } else {
        None
    }
}

/// The collection record a store holds under an arbitrary key.
pub open spec fn stored_collection_at(m: Map<Seq<char>, Seq<u8>>, k: Seq<char>) -> Option<CollectionV> {
    if m.contains_key(k) && (exists|cv: CollectionV| bounded_collection(cv) && m[k] == enc_collection(cv)) {
        Some(choose|cv: CollectionV| bounded_collection(cv) && m[k] == enc_collection(cv))
    } else {
        None
    }
}

/// The balance record a store holds for an address and token, when the
/// bytes under its key are a balance encoding.
pub open spec fn stored_balance(m: Map<Seq<char>, Seq<u8>>, address: Seq<char>, token: Seq<char>) -> Option<BalanceV> {
    stored_balance_at(m, balance_key(address, token))
}

/// The token record a store holds for a symbol.
pub open spec fn stored_token(m: Map<Seq<char>, Seq<u8>>, symbol: Seq<char>) -> Option<TokenV> {
    stored_token_at(m, token_key(symbol))
}

/// The NFT record a store holds for an id.
pub open spec fn stored_nft(m: Map<Seq<char>, Seq<u8>>, id: Seq<char>) -> Option<NftV> {
    stored_nft_at(m, nft_key(id))
}

/// The collection record a store holds for an id.
pub open spec fn stored_collection(m: Map<Seq<char>, Seq<u8>>, id: Seq<char>) -> Option<CollectionV> {
    stored_collection_at(m, collection_key(id))
}

/// Every listed token is held by the store under some key.
pub open spec fn tokens_listed(m: Map<Seq<char>, Seq<u8>>, ts: Seq<Token>) -> bool {
    forall|i: int| 0 <= i < ts.len()
        ==> exists|k: Seq<char>| m.contains_key(k) && m[k] == enc_token((#[trigger] ts[i])@)
}

/// Every listed NFT is held by the store under some key.
pub open spec fn nfts_listed(m: Map<Seq<char>, Seq<u8>>, ns: Seq<Nft>) -> bool {
    forall|i: int| 0 <= i < ns.len()
        ==> exists|k: Seq<char>| m.contains_key(k) && m[k] == enc_nft((#[trigger] ns[i])@)
}

/// Every listed collection is held by the store under some key.
pub open spec fn collections_listed(m: Map<Seq<char>, Seq<u8>>, cs: Seq<Collection>) -> bool {
    forall|i: int| 0 <= i < cs.len()
        ==> exists|k: Seq<char>| m.contains_key(k) && m[k] == enc_collection((#[trigger] cs[i])@)
}

/// A complete token listing: every decodable token record stored
/// under the token namespace appears in the list.
pub open spec fn tokens_complete(m: Map<Seq<char>, Seq<u8>>, ts: Seq<Token>) -> bool {
    forall|k: Seq<char>|
        ("token:"@.is_prefix_of(k) && (#[trigger] stored_token_at(m, k)) is Some)
            ==> exists|i: int| 0 <= i < ts.len()
                && (#[trigger] ts[i])@ == stored_token_at(m, k)->0
}

/// A complete NFT listing: every decodable NFT record stored under the
/// NFT namespace appears in the list.
pub open spec fn nfts_complete(m: Map<Seq<char>, Seq<u8>>, ns: Seq<Nft>) -> bool {
    forall|k: Seq<char>|
        ("nft:"@.is_prefix_of(k) && (#[trigger] stored_nft_at(m, k)) is Some)
            ==> exists|i: int| 0 <= i < ns.len()
                && (#[trigger] ns[i])@ == stored_nft_at(m, k)->0
}

/// A complete collection listing: every decodable collection record
/// stored under the collection namespace appears in the list.
pub open spec fn collections_complete(m: Map<Seq<char>, Seq<u8>>, cs: Seq<Collection>) -> bool {
    forall|k: Seq<char>|
        ("collection:"@.is_prefix_of(k) && (#[trigger] stored_collection_at(m, k)) is Some)
            ==> exists|i: int| 0 <= i < cs.len()
                && (#[trigger] cs[i])@ == stored_collection_at(m, k)->0
}

// ---------------------------------------------------------------------
// The storage facade with domain-typed accessors
// ---------------------------------------------------------------------

/// Main storage interface: a backend plus thin, domain-typed
/// composition over the raw byte interface.
#[derive(Debug)]
pub struct Storage {
    backend: Backend,
}

impl Storage {
    /// The store's contents.
    pub closed spec fn model(&self) -> Map<Seq<char>, Seq<u8>> {
        self.backend.model()
    }

    /// The backend's invariant.
    pub closed spec fn inv(&self) -> bool {
        self.backend.inv()
    }

    /// Whether storage calls cannot fail.
    pub closed spec fn infallible(&self) -> bool {
        self.backend.infallible()
    }

    /// Create a storage over the given backend.
    pub fn new(backend: Backend) -> (r: Self)
        requires
            backend.inv(),
        ensures
            r.inv(),
            r.model() == backend.model(),
            r.infallible() == backend.infallible(),
    {
        Storage { backend }
    }

    /// Create a storage over a fresh in-memory backend.
    pub fn new_in_memory() -> (r: Self)
        ensures
            r.inv(),
            r.infallible(),
            r.model() == Map::<Seq<char>, Seq<u8>>::empty(),
    {
        Storage { backend: Backend::Mem(MemBackend::new()) }
    }

    /// Initialize storage.
    pub fn initialize(&self) -> (r: Result<(), MemeChainError>)
        requires
            self.inv(),
        ensures
            self.infallible() ==> r is Ok,
    {
        self.backend.initialize()
    }

    /// Store a token under its symbol's key.
    pub fn store_token(&mut self, token: &Token) -> (r: Result<(), MemeChainError>)
        requires
            old(self).inv(),
        ensures
            final(self).inv(),
            final(self).infallible() == old(self).infallible(),
            r is Ok ==> final(self).model()
                == old(self).model().insert(token_key(token@.symbol), enc_token(token@)),
            r is Ok ==> stored_token(final(self).model(), token@.symbol) == Some(token@),
            old(self).infallible() ==> r is Ok,
    {
        let key = make_token_key(token.symbol.as_str());
        let value = encode_token(token);
        let value_len = value.len();
        proof {
            assert(value_len < crate::codec::len_bound());
        }
        let r = self.backend.set(key, value);
        proof {
            if r is Ok {
                let m2 = self.model();
                let k = token_key(token@.symbol);
                assert(m2[k] == enc_token(token@));
                assert(bounded_token(token@));
                let tv = choose|tv: TokenV| bounded_token(tv) && m2[k] == enc_token(tv);
                lemma_enc_token_inj(tv, token@);
            }
        }
        r
    }

    /// Get a token by symbol. The record comes back exactly as stored;
    /// a present but undecodable record is a serialization failure.
    pub fn get_token(&self, symbol: &str) -> (r: Result<Option<Token>, MemeChainError>)
        requires
            self.inv(),
        ensures
            r matches Ok(Some(t)) ==> self.model().contains_key(token_key(symbol@))
                && stored_token(self.model(), symbol@) == Some(t@),
            r matches Ok(None) ==> !self.model().contains_key(token_key(symbol@)),
            self.infallible() ==> (r is Err <==>
                self.model().contains_key(token_key(symbol@))
                    && stored_token(self.model(), symbol@) is None),
    {
        let key = make_token_key(symbol);
        let bytes = match self.backend.get(&key) {
            Err(e) => {
                proof {
                    assert(!self.infallible());
                }
                return Err(e);
            }
            Ok(None) => { return Ok(None); }
            Ok(Some(b)) => b,
        };
        let ghost m = self.model();
        let ghost k = token_key(symbol@);
        match dec_token(&bytes, 0) {
            Some((t, j)) if j == bytes.len() => {
                proof {
                    assert(bytes@.subrange(0, j as int) =~= bytes@);
                    assert(m[k] == enc_token(t@));
                    assert(bounded_token(t@));
                    let tv = choose|tv: TokenV| bounded_token(tv) && m[k] == enc_token(tv);
                    lemma_enc_token_inj(tv, t@);
                }
                Ok(Some(t))
            }
            _ => {
                proof {
                    if exists|tv: TokenV| bounded_token(tv) && m[k] == enc_token(tv) {
                        let tv = choose|tv: TokenV| bounded_token(tv) && m[k] == enc_token(tv);
                        assert(bytes@.skip(0) =~= bytes@);
                        assert(enc_token(tv).is_prefix_of(bytes@)) by {
                            assert(enc_token(tv) =~= bytes@.subrange(0, enc_token(tv).len() as int));
                        }
                    }
                }
                Err(MemeChainError::Serialization(String::from_str("malformed token record")))
            }
        }
    }

    /// Store a balance under its address and token key.
    pub fn store_balance(&mut self, balance: &Balance) -> (r: Result<(), MemeChainError>)
        requires
            old(self).inv(),
        ensures
            final(self).inv(),
            final(self).infallible() == old(self).infallible(),
            r is Ok ==> final(self).model()
                == old(self).model().insert(
                    balance_key(balance@.address, balance@.token), enc_balance(balance@)),
            r is Ok ==> stored_balance(final(self).model(), balance@.address, balance@.token) == Some(balance@),
            old(self).infallible() ==> r is Ok,
    {
        let key = make_balance_key(balance.address.as_str(), balance.token.as_str());
        let value = encode_balance(balance);
        let value_len = value.len();
        proof {
            assert(value_len < crate::codec::len_bound());
        }
        let r = self.backend.set(key, value);
        proof {
            if r is Ok {
                let m2 = self.model();
                let k = balance_key(balance@.address, balance@.token);
                assert(m2[k] == enc_balance(balance@));
                assert(bounded_bal(balance@));
                let bv = choose|bv: BalanceV| bounded_bal(bv) && m2[k] == enc_balance(bv);
                lemma_enc_balance_inj(bv, balance@);
            }
        }
        r
    }

    /// Get a balance by address and token.
    pub fn get_balance(&self, address: &Address, token: &str) -> (r: Result<Option<Balance>, MemeChainError>)
        requires
            self.inv(),
        ensures
            r matches Ok(Some(b)) ==> self.model().contains_key(balance_key(address@, token@))
                && stored_balance(self.model(), address@, token@) == Some(b@),
            r matches Ok(None) ==> !self.model().contains_key(balance_key(address@, token@)),
            self.infallible() ==> (r is Err <==>
                self.model().contains_key(balance_key(address@, token@))
                    && stored_balance(self.model(), address@, token@) is None),
    {
        let key = make_balance_key(address.as_str(), token);
        let bytes = match self.backend.get(&key) {
            Err(e) => {
                proof {
                    assert(!self.infallible());
                }
                return Err(e);
            }
            Ok(None) => { return Ok(None); }
            Ok(Some(b)) => b,
        };
        let ghost m = self.model();
        let ghost k = balance_key(address@, token@);
        match dec_balance(&bytes, 0) {
            Some((b, j)) if j == bytes.len() => {
                proof {
                    assert(bytes@.subrange(0, j as int) =~= bytes@);
                    assert(m[k] == enc_balance(b@));
                    assert(bounded_bal(b@));
                    let bv = choose|bv: BalanceV| bounded_bal(bv) && m[k] == enc_balance(bv);
                    lemma_enc_balance_inj(bv, b@);
                }
                Ok(Some(b))
            }
            _ => {
                proof {
                    if exists|bv: BalanceV| bounded_bal(bv) && m[k] == enc_balance(bv) {
                        let bv = choose|bv: BalanceV| bounded_bal(bv) && m[k] == enc_balance(bv);
                        assert(bytes@.skip(0) =~= bytes@);
                        assert(enc_balance(bv).is_prefix_of(bytes@)) by {
                            assert(enc_balance(bv) =~= bytes@.subrange(0, enc_balance(bv).len() as int));
                        }
                    }
                }
                Err(MemeChainError::Serialization(String::from_str("malformed balance record")))
            }
        }
    }

    /// Store an NFT under its id's key.
    pub fn store_nft(&mut self, nft: &Nft) -> (r: Result<(), MemeChainError>)
        requires
            old(self).inv(),
        ensures
            final(self).inv(),
            final(self).infallible() == old(self).infallible(),
            r is Ok ==> final(self).model()
                == old(self).model().insert(nft_key(nft@.id), enc_nft(nft@)),
            r is Ok ==> stored_nft(final(self).model(), nft@.id) == Some(nft@),
            old(self).infallible() ==> r is Ok,
    {
        let key = make_nft_key(nft.id.as_str());
        let value = encode_nft(nft);
        let value_len = value.len();
        proof {
            assert(value_len < crate::codec::len_bound());
        }
        let r = self.backend.set(key, value);
        proof {
            if r is Ok {
                let m2 = self.model();
                let k = nft_key(nft@.id);
                assert(m2[k] == enc_nft(nft@));
                assert(bounded_nft(nft@));
                let nv = choose|nv: NftV| bounded_nft(nv) && m2[k] == enc_nft(nv);
                lemma_enc_nft_inj(nv, nft@);
            }
        }
        r
    }

    /// Get an NFT by id.
    pub fn get_nft(&self, id: &str) -> (r: Result<Option<Nft>, MemeChainError>)
        requires
            self.inv(),
        ensures
            r matches Ok(Some(n)) ==> self.model().contains_key(nft_key(id@))
                && stored_nft(self.model(), id@) == Some(n@),
            r matches Ok(None) ==> !self.model().contains_key(nft_key(id@)),
            self.infallible() ==> (r is Err <==>
                self.model().contains_key(nft_key(id@))
                    && stored_nft(self.model(), id@) is None),
    {
        let key = make_nft_key(id);
        let bytes = match self.backend.get(&key) {
            Err(e) => {
                proof {
                    assert(!self.infallible());
                }
                return Err(e);
            }
            Ok(None) => { return Ok(None); }
            Ok(Some(b)) => b,
        };
        let ghost m = self.model();
        let ghost k = nft_key(id@);
        match dec_nft(&bytes, 0) {
            Some((n, j)) if j == bytes.len() => {
                proof {
                    assert(bytes@.subrange(0, j as int) =~= bytes@);
                    assert(m[k] == enc_nft(n@));
                    assert(bounded_nft(n@));
                    let nv = choose|nv: NftV| bounded_nft(nv) && m[k] == enc_nft(nv);
                    lemma_enc_nft_inj(nv, n@);
                }
                Ok(Some(n))
            }
            _ => {
                proof {
                    if exists|nv: NftV| bounded_nft(nv) && m[k] == enc_nft(nv) {
                        let nv = choose|nv: NftV| bounded_nft(nv) && m[k] == enc_nft(nv);
                        assert(bytes@.skip(0) =~= bytes@);
                        assert(enc_nft(nv).is_prefix_of(bytes@)) by {
                            assert(enc_nft(nv) =~= bytes@.subrange(0, enc_nft(nv).len() as int));
                        }
                    }
                }
                Err(MemeChainError::Serialization(String::from_str("malformed nft record")))
            }
        }
    }

    /// Delete an NFT record; afterwards a lookup of the id is absent.
    pub fn delete_nft(&mut self, id: &str) -> (r: Result<(), MemeChainError>)
        requires
            old(self).inv(),
        ensures
            final(self).inv(),
            final(self).infallible() == old(self).infallible(),
            r is Ok ==> final(self).model() == old(self).model().remove(nft_key(id@)),
            old(self).infallible() ==> r is Ok,
    {
        let key = make_nft_key(id);
        self.backend.delete(&key)
    }

    /// Store a collection under its id's key.
    pub fn store_collection(&mut self, collection: &Collection) -> (r: Result<(), MemeChainError>)
        requires
            old(self).inv(),
        ensures
            final(self).inv(),
            final(self).infallible() == old(self).infallible(),
            r is Ok ==> final(self).model()
                == old(self).model().insert(collection_key(collection@.id), enc_collection(collection@)),
            r is Ok ==> stored_collection(final(self).model(), collection@.id) == Some(collection@),
            old(self).infallible() ==> r is Ok,
    {
        let key = make_collection_key(collection.id.as_str());
        let value = encode_collection(collection);
        let value_len = value.len();
        proof {
            assert(value_len < crate::codec::len_bound());
        }
        let r = self.backend.set(key, value);
        proof {
            if r is Ok {
                let m2 = self.model();
                let k = collection_key(collection@.id);
                assert(m2[k] == enc_collection(collection@));
                assert(bounded_collection(collection@));
                let cv = choose|cv: CollectionV| bounded_collection(cv) && m2[k] == enc_collection(cv);
                lemma_enc_collection_inj(cv, collection@);
            }
        }
        r
    }

    /// Get a collection by id.
    pub fn get_collection(&self, id: &str) -> (r: Result<Option<Collection>, MemeChainError>)
        requires
            self.inv(),
        ensures
            r matches Ok(Some(c)) ==> self.model().contains_key(collection_key(id@))
                && stored_collection(self.model(), id@) == Some(c@),
            r matches Ok(None) ==> !self.model().contains_key(collection_key(id@)),
            self.infallible() ==> (r is Err <==>
                self.model().contains_key(collection_key(id@))
                    && stored_collection(self.model(), id@) is None),
    {
        let key = make_collection_key(id);
        let bytes = match self.backend.get(&key) {
            Err(e) => {
                proof {
                    assert(!self.infallible());
                }
                return Err(e);
            }
            Ok(None) => { return Ok(None); }
            Ok(Some(b)) => b,
        };
        let ghost m = self.model();
        let ghost k = collection_key(id@);
        match dec_collection(&bytes, 0) {
            Some((c, j)) if j == bytes.len() => {
                proof {
                    assert(bytes@.subrange(0, j as int) =~= bytes@);
                    assert(m[k] == enc_collection(c@));
                    assert(bounded_collection(c@));
                    let cv = choose|cv: CollectionV| bounded_collection(cv) && m[k] == enc_collection(cv);
                    lemma_enc_collection_inj(cv, c@);
                }
                Ok(Some(c))
            }
            _ => {
                proof {
                    if exists|cv: CollectionV| bounded_collection(cv) && m[k] == enc_collection(cv) {
                        let cv = choose|cv: CollectionV| bounded_collection(cv) && m[k] == enc_collection(cv);
                        assert(bytes@.skip(0) =~= bytes@);
                        assert(enc_collection(cv).is_prefix_of(bytes@)) by {
                            assert(enc_collection(cv) =~= bytes@.subrange(0, enc_collection(cv).len() as int));
                        }
                    }
                }
                Err(MemeChainError::Serialization(String::from_str("malformed collection record")))
            }
        }
    }

    /// Store a block under its height's key.
    pub fn store_block(&mut self, block: &Block) -> (r: Result<(), MemeChainError>)
        requires
            old(self).inv(),
        ensures
            final(self).inv(),
            final(self).infallible() == old(self).infallible(),
            r is Ok ==> final(self).model()
                == old(self).model().insert(block_key(block.height), enc_block(block@)),
            old(self).infallible() ==> r is Ok,
    {
        let key = make_block_key(block.height);
        let value = encode_block(block);
        self.backend.set(key, value)
    }

    /// Get a block by height. A returned block is exactly what the
    /// stored bytes encode, so stored blocks round-trip.
    pub fn get_block(&self, height: u64) -> (r: Result<Option<Block>, MemeChainError>)
        requires
            self.inv(),
        ensures
            r matches Ok(Some(b)) ==> self.model().contains_key(block_key(height))
                && self.model()[block_key(height)] == enc_block(b@),
            r matches Ok(None) ==> !self.model().contains_key(block_key(height)),
            self.infallible() ==> ((r matches Ok(None)) <==> !self.model().contains_key(block_key(height))),
            self.infallible() ==> (r is Err ==> self.model().contains_key(block_key(height))),
    {
        let key = make_block_key(height);
        let bytes = match self.backend.get(&key) {
            Err(e) => { return Err(e); }
            Ok(None) => { return Ok(None); }
            Ok(Some(b)) => b,
        };
        match dec_block(&bytes, 0) {
            Some((b, j)) if j == bytes.len() => {
                proof {
                    assert(bytes@.subrange(0, j as int) =~= bytes@);
                }
                Ok(Some(b))
            }
            _ => Err(MemeChainError::Serialization(String::from_str("malformed block record"))),
        }
    }

    /// All stored tokens: the listing is sound and complete over the decodable records; individually corrupted records are skipped rather than failing the whole listing.
    #[verifier::rlimit(100)]
    pub fn get_all_tokens(&self) -> (r: Result<Vec<Token>, MemeChainError>)
        requires
            self.inv(),
        ensures
            r matches Ok(out) ==> tokens_listed(self.model(), out@),
            r matches Ok(out) ==> tokens_complete(self.model(), out@),
            self.infallible() ==> r is Ok,
    {
        let prefix = String::from_str("token:");
        let keys = match self.backend.get_keys_with_prefix(&prefix) {
            Err(e) => {
                proof { assert(!self.infallible()); }
                return Err(e);
            }
            Ok(ks) => ks,
        };
        let mut out: Vec<Token> = Vec::new();
        let mut i: usize = 0;
        while i < keys.len()
            invariant
                self.inv(),
                scan_ok(self.model(), "token:"@, keys@),
                0 <= i <= keys@.len(),
                tokens_listed(self.model(), out@),
                forall|j: int| 0 <= j < i
                    ==> ((#[trigger] stored_token_at(self.model(), keys@[j]@)) is Some
                        ==> exists|w: int| 0 <= w < out@.len()
                            && (#[trigger] out@[w])@ == stored_token_at(self.model(), keys@[j]@)->0),
            decreases keys@.len() - i,
        {
            let ghost old_out = out@;
            let ghost kk = keys@[i as int]@;
            match self.backend.get(&keys[i]) {
                Err(e) => {
                    proof { assert(!self.infallible()); }
                    return Err(e);
                }
                Ok(None) => {
                    proof {
                        // a scanned key is present, so this lookup cannot miss
                        assert(self.model().contains_key(kk));
                        assert(false);
                    }
                }
                Ok(Some(bytes)) => {
                    match dec_token(&bytes, 0) {
                        Some((v, j)) if j == bytes.len() => {
                            proof {
                                assert(bytes@.subrange(0, j as int) =~= bytes@);
                                assert(self.model()[kk] == enc_token(v@));
                                assert(bounded_token(v@));
                                let rv = choose|rv: TokenV| bounded_token(rv) && self.model()[kk] == enc_token(rv);
                                lemma_enc_token_inj(rv, v@);
                                assert(stored_token_at(self.model(), kk) == Some(v@));
                            }
                            out.push(v);
                            proof {
                                assert forall|w: int| 0 <= w < out@.len()
                                    implies exists|k: Seq<char>| self.model().contains_key(k)
                                        && self.model()[k] == enc_token((#[trigger] out@[w])@) by {
                                    if w < old_out.len() {
                                        assert(out@[w] == old_out[w]);
                                        let k0 = choose|k: Seq<char>| self.model().contains_key(k)
                                            && self.model()[k] == enc_token(old_out[w]@);
                                        assert(self.model().contains_key(k0)
                                            && self.model()[k0] == enc_token(out@[w]@));
                                    } else {
                                        assert(self.model().contains_key(kk)
                                            && self.model()[kk] == enc_token(out@[w]@));
                                    }
                                }
                                assert forall|j2: int| 0 <= j2 < i + 1
                                    implies ((#[trigger] stored_token_at(self.model(), keys@[j2]@)) is Some
                                        ==> exists|w: int| 0 <= w < out@.len()
                                            && (#[trigger] out@[w])@ == stored_token_at(self.model(), keys@[j2]@)->0) by {
                                    if stored_token_at(self.model(), keys@[j2]@) is Some {
                                        if j2 < i {
                                            let w = choose|w: int| 0 <= w < old_out.len()
                                                && (#[trigger] old_out[w])@ == stored_token_at(self.model(), keys@[j2]@)->0;
                                            assert(out@[w]@ == stored_token_at(self.model(), keys@[j2]@)->0);
                                        } else {
                                            assert(out@[out@.len() - 1]@ == stored_token_at(self.model(), keys@[j2]@)->0);
                                        }
                                    }
                                }
                            }
                        }
                        _ => {
                            proof {
                                // these bytes are no record encoding, so the
                                // slot holds nothing decodable and is skipped
                                if stored_token_at(self.model(), kk) is Some {
                                    let rv = choose|rv: TokenV| bounded_token(rv) && self.model()[kk] == enc_token(rv);
                                    assert(bytes@.skip(0) =~= bytes@);
                                    assert(enc_token(rv).is_prefix_of(bytes@)) by {
                                        assert(enc_token(rv) =~= bytes@.subrange(0, enc_token(rv).len() as int));
                                    }
                                    assert(false);
                                }
                            }
                        }
                    }
                }
            }
            i += 1;
        }
        proof {
            assert forall|k: Seq<char>|
                ("token:"@.is_prefix_of(k) && (#[trigger] stored_token_at(self.model(), k)) is Some)
                    implies exists|w: int| 0 <= w < out@.len()
                        && (#[trigger] out@[w])@ == stored_token_at(self.model(), k)->0 by {
                assert(self.model().contains_key(k));
                let j = choose|j: int| 0 <= j < keys@.len() && (#[trigger] keys@[j])@ == k;
                assert(stored_token_at(self.model(), keys@[j]@) is Some);
                let w = choose|w: int| 0 <= w < out@.len()
                    && (#[trigger] out@[w])@ == stored_token_at(self.model(), keys@[j]@)->0;
                assert(out@[w]@ == stored_token_at(self.model(), k)->0);
            }
        }
        Ok(out)
    }

    /// All stored NFTs: sound and complete over the decodable records; corrupted records are skipped.
    #[verifier::rlimit(100)]
    pub fn get_all_nfts(&self) -> (r: Result<Vec<Nft>, MemeChainError>)
        requires
            self.inv(),
        ensures
            r matches Ok(out) ==> nfts_listed(self.model(), out@),
            r matches Ok(out) ==> nfts_complete(self.model(), out@),
            self.infallible() ==> r is Ok,
    {
        let prefix = String::from_str("nft:");
        let keys = match self.backend.get_keys_with_prefix(&prefix) {
            Err(e) => {
                proof { assert(!self.infallible()); }
                return Err(e);
            }
            Ok(ks) => ks,
        };
        let mut out: Vec<Nft> = Vec::new();
        let mut i: usize = 0;
        while i < keys.len()
            invariant
                self.inv(),
                scan_ok(self.model(), "nft:"@, keys@),
                0 <= i <= keys@.len(),
                nfts_listed(self.model(), out@),
                forall|j: int| 0 <= j < i
                    ==> ((#[trigger] stored_nft_at(self.model(), keys@[j]@)) is Some
                        ==> exists|w: int| 0 <= w < out@.len()
                            && (#[trigger] out@[w])@ == stored_nft_at(self.model(), keys@[j]@)->0),
            decreases keys@.len() - i,
        {
            let ghost old_out = out@;
            let ghost kk = keys@[i as int]@;
            match self.backend.get(&keys[i]) {
                Err(e) => {
                    proof { assert(!self.infallible()); }
                    return Err(e);
                }
                Ok(None) => {
                    proof {
                        // a scanned key is present, so this lookup cannot miss
                        assert(self.model().contains_key(kk));
                        assert(false);
                    }
                }
                Ok(Some(bytes)) => {
                    match dec_nft(&bytes, 0) {
                        Some((v, j)) if j == bytes.len() => {
                            proof {
                                assert(bytes@.subrange(0, j as int) =~= bytes@);
                                assert(self.model()[kk] == enc_nft(v@));
                                assert(bounded_nft(v@));
                                let rv = choose|rv: NftV| bounded_nft(rv) && self.model()[kk] == enc_nft(rv);
                                lemma_enc_nft_inj(rv, v@);
                                assert(stored_nft_at(self.model(), kk) == Some(v@));
                            }
                            out.push(v);
                            proof {
                                assert forall|w: int| 0 <= w < out@.len()
                                    implies exists|k: Seq<char>| self.model().contains_key(k)
                                        && self.model()[k] == enc_nft((#[trigger] out@[w])@) by {
                                    if w < old_out.len() {
                                        assert(out@[w] == old_out[w]);
                                        let k0 = choose|k: Seq<char>| self.model().contains_key(k)
                                            && self.model()[k] == enc_nft(old_out[w]@);
                                        assert(self.model().contains_key(k0)
                                            && self.model()[k0] == enc_nft(out@[w]@));
                                    } else {
                                        assert(self.model().contains_key(kk)
                                            && self.model()[kk] == enc_nft(out@[w]@));
                                    }
                                }
                                assert forall|j2: int| 0 <= j2 < i + 1
                                    implies ((#[trigger] stored_nft_at(self.model(), keys@[j2]@)) is Some
                                        ==> exists|w: int| 0 <= w < out@.len()
                                            && (#[trigger] out@[w])@ == stored_nft_at(self.model(), keys@[j2]@)->0) by {
                                    if stored_nft_at(self.model(), keys@[j2]@) is Some {
                                        if j2 < i {
                                            let w = choose|w: int| 0 <= w < old_out.len()
                                                && (#[trigger] old_out[w])@ == stored_nft_at(self.model(), keys@[j2]@)->0;
                                            assert(out@[w]@ == stored_nft_at(self.model(), keys@[j2]@)->0);
                                        } else {
                                            assert(out@[out@.len() - 1]@ == stored_nft_at(self.model(), keys@[j2]@)->0);
                                        }
                                    }
                                }
                            }
                        }
                        _ => {
                            proof {
                                // these bytes are no record encoding, so the
                                // slot holds nothing decodable and is skipped
                                if stored_nft_at(self.model(), kk) is Some {
                                    let rv = choose|rv: NftV| bounded_nft(rv) && self.model()[kk] == enc_nft(rv);
                                    assert(bytes@.skip(0) =~= bytes@);
                                    assert(enc_nft(rv).is_prefix_of(bytes@)) by {
                                        assert(enc_nft(rv) =~= bytes@.subrange(0, enc_nft(rv).len() as int));
                                    }
                                    assert(false);
                                }
                            }
                        }
                    }
                }
            }
            i += 1;
        }
        proof {
            assert forall|k: Seq<char>|
                ("nft:"@.is_prefix_of(k) && (#[trigger] stored_nft_at(self.model(), k)) is Some)
                    implies exists|w: int| 0 <= w < out@.len()
                        && (#[trigger] out@[w])@ == stored_nft_at(self.model(), k)->0 by {
                assert(self.model().contains_key(k));
                let j = choose|j: int| 0 <= j < keys@.len() && (#[trigger] keys@[j])@ == k;
                assert(stored_nft_at(self.model(), keys@[j]@) is Some);
                let w = choose|w: int| 0 <= w < out@.len()
                    && (#[trigger] out@[w])@ == stored_nft_at(self.model(), keys@[j]@)->0;
                assert(out@[w]@ == stored_nft_at(self.model(), k)->0);
            }
        }
        Ok(out)
    }

    /// All stored collections: sound and complete over the decodable records; corrupted records are skipped.
    #[verifier::rlimit(100)]
    pub fn get_all_collections(&self) -> (r: Result<Vec<Collection>, MemeChainError>)
        requires
            self.inv(),
        ensures
            r matches Ok(out) ==> collections_listed(self.model(), out@),
            r matches Ok(out) ==> collections_complete(self.model(), out@),
            self.infallible() ==> r is Ok,
    {
        let prefix = String::from_str("collection:");
        let keys = match self.backend.get_keys_with_prefix(&prefix) {
            Err(e) => {
                proof { assert(!self.infallible()); }
                return Err(e);
            }
            Ok(ks) => ks,
        };
        let mut out: Vec<Collection> = Vec::new();
        let mut i: usize = 0;
        while i < keys.len()
            invariant
                self.inv(),
                scan_ok(self.model(), "collection:"@, keys@),
                0 <= i <= keys@.len(),
                collections_listed(self.model(), out@),
                forall|j: int| 0 <= j < i
                    ==> ((#[trigger] stored_collection_at(self.model(), keys@[j]@)) is Some
                        ==> exists|w: int| 0 <= w < out@.len()
                            && (#[trigger] out@[w])@ == stored_collection_at(self.model(), keys@[j]@)->0),
            decreases keys@.len() - i,
        {
            let ghost old_out = out@;
            let ghost kk = keys@[i as int]@;
            match self.backend.get(&keys[i]) {
                Err(e) => {
                    proof { assert(!self.infallible()); }
                    return Err(e);
                }
                Ok(None) => {
                    proof {
                        // a scanned key is present, so this lookup cannot miss
                        assert(self.model().contains_key(kk));
                        assert(false);
                    }
                }
                Ok(Some(bytes)) => {
                    match dec_collection(&bytes, 0) {
                        Some((v, j)) if j == bytes.len() => {
                            proof {
                                assert(bytes@.subrange(0, j as int) =~= bytes@);
                                assert(self.model()[kk] == enc_collection(v@));
                                assert(bounded_collection(v@));
                                let rv = choose|rv: CollectionV| bounded_collection(rv) && self.model()[kk] == enc_collection(rv);
                                lemma_enc_collection_inj(rv, v@);
                                assert(stored_collection_at(self.model(), kk) == Some(v@));
                            }
                            out.push(v);
                            proof {
                                assert forall|w: int| 0 <= w < out@.len()
                                    implies exists|k: Seq<char>| self.model().contains_key(k)
                                        && self.model()[k] == enc_collection((#[trigger] out@[w])@) by {
                                    if w < old_out.len() {
                                        assert(out@[w] == old_out[w]);
                                        let k0 = choose|k: Seq<char>| self.model().contains_key(k)
                                            && self.model()[k] == enc_collection(old_out[w]@);
                                        assert(self.model().contains_key(k0)
                                            && self.model()[k0] == enc_collection(out@[w]@));
                                    } else {
                                        assert(self.model().contains_key(kk)
                                            && self.model()[kk] == enc_collection(out@[w]@));
                                    }
                                }
                                assert forall|j2: int| 0 <= j2 < i + 1
                                    implies ((#[trigger] stored_collection_at(self.model(), keys@[j2]@)) is Some
                                        ==> exists|w: int| 0 <= w < out@.len()
                                            && (#[trigger] out@[w])@ == stored_collection_at(self.model(), keys@[j2]@)->0) by {
                                    if stored_collection_at(self.model(), keys@[j2]@) is Some {
                                        if j2 < i {
                                            let w = choose|w: int| 0 <= w < old_out.len()
                                                && (#[trigger] old_out[w])@ == stored_collection_at(self.model(), keys@[j2]@)->0;
                                            assert(out@[w]@ == stored_collection_at(self.model(), keys@[j2]@)->0);
                                        } else {
                                            assert(out@[out@.len() - 1]@ == stored_collection_at(self.model(), keys@[j2]@)->0);
                                        }
                                    }
                                }
                            }
                        }
                        _ => {
                            proof {
                                // these bytes are no record encoding, so the
                                // slot holds nothing decodable and is skipped
                                if stored_collection_at(self.model(), kk) is Some {
                                    let rv = choose|rv: CollectionV| bounded_collection(rv) && self.model()[kk] == enc_collection(rv);
                                    assert(bytes@.skip(0) =~= bytes@);
                                    assert(enc_collection(rv).is_prefix_of(bytes@)) by {
                                        assert(enc_collection(rv) =~= bytes@.subrange(0, enc_collection(rv).len() as int));
                                    }
                                    assert(false);
                                }
                            }
                        }
                    }
                }
            }
            i += 1;
        }
        proof {
            assert forall|k: Seq<char>|
                ("collection:"@.is_prefix_of(k) && (#[trigger] stored_collection_at(self.model(), k)) is Some)
                    implies exists|w: int| 0 <= w < out@.len()
                        && (#[trigger] out@[w])@ == stored_collection_at(self.model(), k)->0 by {
                assert(self.model().contains_key(k));
                let j = choose|j: int| 0 <= j < keys@.len() && (#[trigger] keys@[j])@ == k;
                assert(stored_collection_at(self.model(), keys@[j]@) is Some);
                let w = choose|w: int| 0 <= w < out@.len()
                    && (#[trigger] out@[w])@ == stored_collection_at(self.model(), keys@[j]@)->0;
                assert(out@[w]@ == stored_collection_at(self.model(), k)->0);
            }
        }
        Ok(out)
    }

    /// The amount after applying a signed delta to a possibly missing
    /// balance: a credit to nothing creates it, a debit from nothing
    /// fails.
    pub open spec fn upd_amount(prev: Option<BalanceV>, amount: i64) -> Option<int> {
        match prev {
            Some(b) => Some(b.amount + amount),
            None => if amount >= 0 { Some(amount as int) } else { None },
        }
    }

    /// Adjust a balance by a signed amount, stamping the update time.
    pub fn update_balance(&mut self, address: &Address, token: &str, amount: i64, now: i64) -> (r: Result<(), MemeChainError>)
        requires
            old(self).inv(),
        ensures
            final(self).inv(),
            final(self).infallible() == old(self).infallible(),
            r is Ok ==> ({
                let prev = stored_balance(old(self).model(), address@, token@);
                let v = Self::upd_amount(prev, amount);
                &&& v matches Some(n) && 0 <= n <= u64::MAX
                &&& final(self).model() == old(self).model().insert(
                        balance_key(address@, token@),
                        enc_balance(BalanceV {
                            address: address@,
                            token: token@,
                            amount: v->0 as u64,
                            updated_at: now,
                        }))
            }),
            old(self).infallible() ==> ((r is Ok) <==> ({
                let prev = stored_balance(old(self).model(), address@, token@);
                &&& !(old(self).model().contains_key(balance_key(address@, token@)) && prev is None)
                &&& Self::upd_amount(prev, amount) matches Some(n) && 0 <= n <= u64::MAX
            })),
    {
        let prev = match self.get_balance(address, token) {
            Err(e) => { return Err(e); }
            Ok(p) => p,
        };
        let new_amount: u64 = match prev {
            Some(b) => {
                if amount >= 0 {
                    match b.amount.checked_add(amount as u64) {
                        None => {
                            return Err(MemeChainError::Storage(StorageError::WriteFailed(
                                String::from_str("balance out of range"))));
                        }
                        Some(v) => v,
                    }
                } else {
                    let mag: u64 = (-(amount as i128)) as u64;
                    match b.amount.checked_sub(mag) {
                        None => {
                            return Err(MemeChainError::InsufficientBalance(
                                String::from_str("cannot debit below zero")));
                        }
                        Some(v) => v,
                    }
                }
            }
            None => {
                if amount < 0 {
                    return Err(MemeChainError::Storage(StorageError::WriteFailed(
                        String::from_str("cannot create negative balance"))));
                }
                amount as u64
            }
        };
        let new_balance = Balance::new(Address::new(String::from_str(address.as_str())), String::from_str(token), new_amount, now);
        self.store_balance(&new_balance)
    }
}

} // verus!
