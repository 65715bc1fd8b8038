//! The transaction dispatch pipeline and block assembler: a single
//! application that validates, rate-limits and routes transactions to
//! the domain modules, and batches the pending pool into
//! height-ordered blocks.

use vstd::prelude::*;
use crate::error::MemeChainError;
use crate::types::{Address, Block, Transaction, TransactionResult, TransactionV, addr_valid};
use crate::storage::Storage;
use crate::meme::{MemeModule, meme_action_ok, meme_action_model, create_token_result, transfer_token_result, buy_token_result, sell_token_result, lock_liquidity_result};
use crate::nft::{NftModule, created_collection_post, minted_post, nft_transfer_ok, nft_transfer_model, nft_transfer_result, burn_nft_ok, burn_nft_model, burn_nft_result, update_metadata_ok, update_metadata_model, update_metadata_result};
use crate::common::{CommonModule, common_action_ok, str_eq};
use crate::config::Config;
use crate::codec::{txs_view, enc_block};
use crate::storage::block_key;

verus! {

/// The per-address cool-down of the rate gate, in seconds.
pub open spec fn rate_window() -> int {
    60
}

/// The pipeline's structural screen: not expired against the
/// configured skew, a signature present, a well-formed sender.
pub open spec fn structurally_valid(tx: TransactionV, block_time: u64, now: i64) -> bool {
    &&& tx.timestamp + block_time * 10 >= now
    &&& tx.signature.len() > 0
    &&& addr_valid(tx.from)
}

/// Whether a sender is still inside the cool-down window.
pub open spec fn rate_limited(limiter: Map<Seq<char>, i64>, from: Seq<char>, now: i64) -> bool {
    limiter.contains_key(from) && now < limiter[from] + rate_window()
}

/// A submission the pipeline will dispatch: structurally valid and
/// naming a known module.
pub open spec fn admissible(tx: TransactionV, block_time: u64, now: i64) -> bool {
    &&& structurally_valid(tx, block_time, now)
    &&& (tx.module == "nft"@ || tx.module == "meme"@ || tx.module == "common"@)
}

/// The index of the entry holding an address.
spec fn rl_idx_of(es: Seq<(String, i64)>, a: Seq<char>) -> int {
    choose|i: int| 0 <= i < es.len() && es[i].0@ == a
}

/// The last-seen table of the rate gate, spelled out for the update
/// lemmas.
spec fn rl_model_of(es: Seq<(String, i64)>) -> Map<Seq<char>, i64> {
    Map::new(
        |a: Seq<char>| exists|i: int| 0 <= i < es.len() && (#[trigger] es[i]).0@ == a,
        |a: Seq<char>| es[rl_idx_of(es, a)].1,
    )
}

/// The per-address rate gate: the last-seen time of each sender.
#[derive(Debug)]
pub struct RateLimiter {
    entries: Vec<(String, i64)>,
}

impl RateLimiter {
    /// The last-seen table.
    pub closed spec fn model(&self) -> Map<Seq<char>, i64> {
        rl_model_of(self.entries@)
    }

    /// Keys are unique.
    pub closed spec fn inv(&self) -> bool {
        forall|i: int, j: int| 0 <= i < j < self.entries@.len()
            ==> (#[trigger] self.entries@[i]).0@ != (#[trigger] self.entries@[j]).0@
    }

    /// An empty rate gate.
    pub fn new() -> (r: Self)
        ensures
            r.inv(),
            r.model() == Map::<Seq<char>, i64>::empty(),
    {
        let r = RateLimiter { entries: Vec::new() };
        proof {
            assert(r.model() =~= Map::<Seq<char>, i64>::empty());
        }
        r
    }

    /// Find the entry holding an address.
    fn find(&self, addr: &String) -> (r: Option<usize>)
        ensures
            r matches Some(i) ==> i < self.entries@.len() && self.entries@[i as int].0@ == addr@,
            r is None ==> forall|i: int| 0 <= i < self.entries@.len()
                ==> (#[trigger] self.entries@[i]).0@ != addr@,
    {
        let n = self.entries.len();
        let mut i: usize = 0;
        while i < n
            invariant
                0 <= i <= n,
                n == self.entries@.len(),
                forall|j: int| 0 <= j < i ==> (#[trigger] self.entries@[j]).0@ != addr@,
            decreases n - i,
        {
            if self.entries[i].0 == *addr {
                return Some(i);
            }
            i += 1;
        }
        None
    }

    /// The last-seen time of an address, when one is recorded.
    pub fn last_seen(&self, addr: &String) -> (r: Option<i64>)
        requires
            self.inv(),
        ensures
            r matches Some(t) ==> self.model().contains_key(addr@) && t == self.model()[addr@],
            r is None <==> !self.model().contains_key(addr@),
    {
        match self.find(addr) {
            None => {
                proof {
                    assert(!self.model().contains_key(addr@));
                }
                None
            }
            Some(i) => {
                proof {
                    assert(self.model().contains_key(addr@));
                    let w = rl_idx_of(self.entries@, addr@);
                    assert(0 <= w < self.entries@.len() && self.entries@[w].0@ == addr@);
                    if w != i {
                        if w < i {
                            assert(self.entries@[w].0@ != self.entries@[i as int].0@);
                        } else {
                            assert(self.entries@[i as int].0@ != self.entries@[w].0@);
                        }
                    }
                }
                Some(self.entries[i].1)
            }
        }
    }

    /// Stamp an address with the given time.
    pub fn stamp(&mut self, addr: &String, now: i64)
        requires
            old(self).inv(),
        ensures
            final(self).inv(),
            final(self).model() == old(self).model().insert(addr@, now),
    {
        let ghost old_es = self.entries@;
        match self.find(addr) {
            Some(i) => {
                self.entries.set(i, (addr.clone(), now));
                proof {
                    let es = self.entries@;
                    assert forall|a: int, b: int| 0 <= a < b < es.len()
                        implies (#[trigger] es[a]).0@ != (#[trigger] es[b]).0@ by {
                        assert(old_es[a].0@ != old_es[b].0@);
                    }
                    lemma_rl_set_model(old_es, es, i as int);
                }
            }
            None => {
                self.entries.push((addr.clone(), now));
                proof {
                    let es = self.entries@;
                    assert forall|a: int, b: int| 0 <= a < b < es.len()
                        implies (#[trigger] es[a]).0@ != (#[trigger] es[b]).0@ by {
                        if b < es.len() - 1 {
                            assert(old_es[a].0@ != old_es[b].0@);
                        } else {
                            assert(old_es[a].0@ != es[b].0@);
                        }
                    }
                    lemma_rl_push_model(old_es, es);
                }
            }
        }
    }

    /// Screen a submission: a second request from the same address
    /// within the cool-down window is rejected; a request that passes
    /// stamps the address with the given time.
    pub fn check(&mut self, addr: &String, now: i64) -> (r: Result<(), MemeChainError>)
        requires
            old(self).inv(),
        ensures
            final(self).inv(),
            r is Err <==> (old(self).model().contains_key(addr@)
                && now < old(self).model()[addr@] + rate_window()),
            r matches Err(e) ==> e is RateLimitExceeded
                && final(self).model() == old(self).model(),
            r is Ok ==> final(self).model() == old(self).model().insert(addr@, now),
    {
        match self.last_seen(addr) {
            Some(last) => {
                if (now as i128) < (last as i128) + 60 {
                    return Err(MemeChainError::RateLimitExceeded);
                }
            }
            None => {}
        }
        self.stamp(addr, now);
        Ok(())
    }
}

/// Replacing the entry at `i` updates the table at that address.
proof fn lemma_rl_set_model(old_es: Seq<(String, i64)>, es: Seq<(String, i64)>, i: int)
    requires
        0 <= i < old_es.len(),
        es.len() == old_es.len(),
        forall|j: int| 0 <= j < old_es.len() && j != i ==> #[trigger] es[j] == old_es[j],
        forall|a: int, b: int| 0 <= a < b < old_es.len()
            ==> (#[trigger] old_es[a]).0@ != (#[trigger] old_es[b]).0@,
        forall|a: int, b: int| 0 <= a < b < es.len()
            ==> (#[trigger] es[a]).0@ != (#[trigger] es[b]).0@,
        es[i].0@ == old_es[i].0@,
    ensures
        rl_model_of(es) == rl_model_of(old_es).insert(es[i].0@, es[i].1),
{
    let m0 = rl_model_of(old_es);
    let m1 = rl_model_of(es);
    assert forall|k: Seq<char>| m1.contains_key(k) <==> m0.insert(es[i].0@, es[i].1).contains_key(k) by {
        if k == es[i].0@ {
            assert(es[i].0@ == k);
        } else {
            if exists|j: int| 0 <= j < es.len() && (#[trigger] es[j]).0@ == k {
                let j = choose|j: int| 0 <= j < es.len() && (#[trigger] es[j]).0@ == k;
                assert(old_es[j].0@ == k);
            }
            if exists|j: int| 0 <= j < old_es.len() && (#[trigger] old_es[j]).0@ == k {
                let j = choose|j: int| 0 <= j < old_es.len() && (#[trigger] old_es[j]).0@ == k;
                assert(es[j].0@ == k);
            }
        }
    }
    assert forall|k: Seq<char>| m1.contains_key(k)
        implies m1[k] == m0.insert(es[i].0@, es[i].1)[k] by {
        let w = rl_idx_of(es, k);
        assert(0 <= w < es.len() && es[w].0@ == k);
        if k == es[i].0@ {
            if w != i {
                if w < i {
                    assert(es[w].0@ != es[i].0@);
                } else {
                    assert(es[i].0@ != es[w].0@);
                }
            }
        } else {
            assert(w != i);
            let w0 = rl_idx_of(old_es, k);
            assert(0 <= w0 < old_es.len() && old_es[w0].0@ == k);
            assert(w0 != i);
            if w0 != w {
                if w0 < w {
                    assert(es[w0].0@ != es[w].0@);
                } else {
                    assert(es[w].0@ != es[w0].0@);
                }
            }
        }
    }
    assert(m1 =~= m0.insert(es[i].0@, es[i].1));
}

/// Pushing a fresh entry inserts its address into the table.
proof fn lemma_rl_push_model(old_es: Seq<(String, i64)>, es: Seq<(String, i64)>)
    requires
        es.len() == old_es.len() + 1,
        forall|j: int| 0 <= j < old_es.len() ==> #[trigger] es[j] == old_es[j],
        forall|j: int| 0 <= j < old_es.len() ==> (#[trigger] old_es[j]).0@ != es[es.len() - 1].0@,
        forall|a: int, b: int| 0 <= a < b < es.len()
            ==> (#[trigger] es[a]).0@ != (#[trigger] es[b]).0@,
    ensures
        rl_model_of(es) == rl_model_of(old_es).insert(es[es.len() - 1].0@, es[es.len() - 1].1),
{
    let m0 = rl_model_of(old_es);
    let m1 = rl_model_of(es);
    let kn = es[es.len() - 1].0@;
    assert forall|k: Seq<char>| m1.contains_key(k) <==> m0.insert(kn, es[es.len() - 1].1).contains_key(k) by {
        if k == kn {
            assert(es[es.len() - 1].0@ == k);
        } else {
            if exists|j: int| 0 <= j < es.len() && (#[trigger] es[j]).0@ == k {
                let j = choose|j: int| 0 <= j < es.len() && (#[trigger] es[j]).0@ == k;
                assert(j < old_es.len());
                assert(old_es[j].0@ == k);
            }
            if exists|j: int| 0 <= j < old_es.len() && (#[trigger] old_es[j]).0@ == k {
                let j = choose|j: int| 0 <= j < old_es.len() && (#[trigger] old_es[j]).0@ == k;
                assert(es[j].0@ == k);
            }
        }
    }
    assert forall|k: Seq<char>| m1.contains_key(k)
        implies m1[k] == m0.insert(kn, es[es.len() - 1].1)[k] by {
        let w = rl_idx_of(es, k);
        assert(0 <= w < es.len() && es[w].0@ == k);
        if k == kn {
            if w != es.len() - 1 {
                assert(es[w].0@ != es[es.len() - 1].0@);
            }
        } else {
            assert(w < old_es.len());
            let w0 = rl_idx_of(old_es, k);
            assert(0 <= w0 < old_es.len() && old_es[w0].0@ == k);
            if w0 != w {
                if w0 < w {
                    assert(es[w0].0@ != es[w].0@);
                } else {
                    assert(es[w].0@ != es[w0].0@);
                }
            }
        }
    }
    assert(m1 =~= m0.insert(kn, es[es.len() - 1].1));
}

/// Main blockchain application: one ledger with its modules, pending
/// pool and rate gate. All mutation flows through one owner, so no
/// two mutations ever interleave.
#[derive(Debug)]
pub struct MemeChainApp {
    /// Application configuration.
    config: Config,
    /// Storage layer.
    storage: Storage,
    /// NFT module.
    nft_module: NftModule,
    /// Token module.
    meme_module: MemeModule,
    /// Common utilities module.
    common_module: CommonModule,
    /// Current block height.
    block_height: u64,
    /// Transaction pool.
    tx_pool: Vec<Transaction>,
    /// Rate limiting.
    rate_limiter: RateLimiter,
}

impl MemeChainApp {
    /// The ledger's storage contents.
    pub closed spec fn model(&self) -> Map<Seq<char>, Seq<u8>> {
        self.storage.model()
    }

    /// The application invariant: the backend's and rate gate's.
    pub closed spec fn inv(&self) -> bool {
        self.storage.inv() && self.rate_limiter.inv()
    }

    /// Whether the storage backend cannot fail.
    pub closed spec fn infallible(&self) -> bool {
        self.storage.infallible()
    }

    /// The current block height.
    pub closed spec fn height(&self) -> u64 {
        self.block_height
    }

    /// The pending pool.
    pub closed spec fn pool(&self) -> Seq<Transaction> {
        self.tx_pool@
    }

    /// The rate gate's last-seen table.
    pub closed spec fn limiter(&self) -> Map<Seq<char>, i64> {
        self.rate_limiter.model()
    }

    /// The configured block time.
    pub closed spec fn block_time(&self) -> u64 {
        self.config.chain.block_time
    }

    /// The token module's cached block height.
    pub closed spec fn module_height(&self) -> u64 {
        self.meme_module.height()
    }

    /// Create a new application over the given storage.
    pub fn new(config: Config, storage: Storage) -> (r: Self)
        requires
            storage.inv(),
        ensures
            r.inv(),
            r.model() == storage.model(),
            r.infallible() == storage.infallible(),
            r.height() == 0,
            r.pool() == Seq::<Transaction>::empty(),
            r.limiter() == Map::<Seq<char>, i64>::empty(),
            r.block_time() == config.chain.block_time,
    {
        let r = MemeChainApp {
            config,
            storage,
            nft_module: NftModule::new(),
            meme_module: MemeModule::new(),
            common_module: CommonModule::new(),
            block_height: 0,
            tx_pool: Vec::new(),
            rate_limiter: RateLimiter::new(),
        };
        proof {
            assert(r.pool() =~= Seq::<Transaction>::empty());
        }
        r
    }

    /// Initialize storage.
    pub fn initialize_storage(&self) -> (r: Result<(), MemeChainError>)
        requires
            self.inv(),
        ensures
            self.infallible() ==> r is Ok,
    {
        self.storage.initialize()
    }

    /// Queue a transaction in the pending pool.
    pub fn add_transaction(&mut self, tx: Transaction)
        ensures
            final(self).pool() == old(self).pool().push(tx),
            final(self).inv() == old(self).inv(),
            final(self).model() == old(self).model(),
            final(self).height() == old(self).height(),
            final(self).infallible() == old(self).infallible(),
            final(self).limiter() == old(self).limiter(),
            final(self).block_time() == old(self).block_time(),
    {
        self.tx_pool.push(tx);
    }

    /// Structural validation, strictly ordered: expiry against the
    /// configured skew, then the placeholder signature presence check,
    /// then the sender's address format.
    pub fn validate_transaction(&self, tx: &Transaction, now: i64) -> (r: Result<(), MemeChainError>)
        ensures
            r is Ok <==> ({
                &&& tx@.timestamp + self.block_time() * 10 >= now
                &&& tx@.signature.len() > 0
                &&& addr_valid(tx@.from)
            }),
    {
        if (tx.timestamp as i128) + (self.config.chain.block_time as i128) * 10 < now as i128 {
            return Err(MemeChainError::Validation(String::from_str("transaction expired")));
        }
        match self.common_module.validate_signature(tx) {
            Err(e) => { return Err(e); }
            Ok(()) => {}
        }
        match self.common_module.validate_address(&tx.from) {
            Err(e) => { return Err(e); }
            Ok(()) => {}
        }
        Ok(())
    }

    /// Gate a sender against the rate window, stamping it on passage.
    pub fn check_rate_limit(&mut self, address: &Address, now: i64) -> (r: Result<(), MemeChainError>)
        requires
            old(self).inv(),
        ensures
            final(self).inv(),
            final(self).model() == old(self).model(),
            final(self).pool() == old(self).pool(),
            final(self).height() == old(self).height(),
            final(self).infallible() == old(self).infallible(),
            final(self).block_time() == old(self).block_time(),
            final(self).module_height() == old(self).module_height(),
            r is Err <==> (old(self).limiter().contains_key(address@)
                && now < old(self).limiter()[address@] + rate_window()),
            r matches Err(e) ==> e is RateLimitExceeded && final(self).limiter() == old(self).limiter(),
            r is Ok ==> final(self).limiter() == old(self).limiter().insert(address@, now),
    {
        let key = String::from_str(address.as_str());
        self.rate_limiter.check(&key, now)
    }

    /// Stamp a sender's last-seen time.
    pub fn update_rate_limiter(&mut self, address: &Address, now: i64)
        requires
            old(self).inv(),
        ensures
            final(self).inv(),
            final(self).model() == old(self).model(),
            final(self).pool() == old(self).pool(),
            final(self).height() == old(self).height(),
            final(self).infallible() == old(self).infallible(),
            final(self).block_time() == old(self).block_time(),
            final(self).module_height() == old(self).module_height(),
            final(self).limiter() == old(self).limiter().insert(address@, now),
    {
        let key = String::from_str(address.as_str());
        self.rate_limiter.stamp(&key, now);
    }

    /// Process one transaction through the pipeline: reject expired,
    /// unsigned or malformed submissions; gate the sender against the
    /// rate window; dispatch by the declared module; and stamp the
    /// sender again after a successful module call.
    pub fn process_transaction(&mut self, tx: &Transaction, now: i64) -> (r: Result<TransactionResult, MemeChainError>)
        requires
            old(self).inv(),
        ensures
            final(self).inv(),
            final(self).pool() == old(self).pool(),
            final(self).height() == old(self).height(),
            final(self).infallible() == old(self).infallible(),
            final(self).block_time() == old(self).block_time(),
            r matches Ok(res) ==> res.success && res.error is None,
            // a structurally invalid submission leaves nothing changed
            !structurally_valid(tx@, old(self).block_time(), now)
                ==> r is Err && final(self).model() == old(self).model()
                    && final(self).limiter() == old(self).limiter(),
            // a sender still inside the cool-down window is rejected
            (structurally_valid(tx@, old(self).block_time(), now)
                && rate_limited(old(self).limiter(), tx@.from, now))
                ==> (r matches Err(e) && e is RateLimitExceeded
                    && final(self).model() == old(self).model()
                    && final(self).limiter() == old(self).limiter()),
            // an unknown module is a validation failure past the cool-down check
            ({
                &&& structurally_valid(tx@, old(self).block_time(), now)
                &&& !rate_limited(old(self).limiter(), tx@.from, now)
                &&& !(tx@.module == "nft"@ || tx@.module == "meme"@ || tx@.module == "common"@)
            }) ==> (r is Err && final(self).model() == old(self).model()
                && final(self).limiter() == old(self).limiter().insert(tx@.from, now)),
            // a dispatched module call stamps the sender a second time,
            // whether it succeeded or failed
            ({
                &&& structurally_valid(tx@, old(self).block_time(), now)
                &&& !rate_limited(old(self).limiter(), tx@.from, now)
                &&& (tx@.module == "nft"@ || tx@.module == "meme"@ || tx@.module == "common"@)
            }) ==> final(self).limiter() == old(self).limiter().insert(tx@.from, now),
            r is Ok ==> final(self).limiter() == old(self).limiter().insert(tx@.from, now),
            // a token transaction is dispatched to the token module:
            // it succeeds exactly on its action's condition and
            // effects exactly its action's transition and payload
            ({
                &&& structurally_valid(tx@, old(self).block_time(), now)
                &&& !rate_limited(old(self).limiter(), tx@.from, now)
                &&& tx@.module == "meme"@
            }) ==> ({
                &&& (old(self).infallible() ==> (r is Ok <==>
                    meme_action_ok(old(self).model(), tx@, old(self).module_height(), now)))
                &&& (r is Ok ==> meme_action_ok(old(self).model(), tx@, old(self).module_height(), now)
                    && final(self).model() == meme_action_model(old(self).model(), tx@, old(self).module_height(), now))
                &&& (tx@.action == "create_token"@ ==> (r matches Ok(res) ==> create_token_result(tx@, res@)))
                &&& (tx@.action == "transfer"@ ==> (r matches Ok(res) ==> transfer_token_result(tx@, res@)))
                &&& (tx@.action == "buy"@ ==> (r matches Ok(res) ==> buy_token_result(old(self).model(), tx@, res@)))
                &&& (tx@.action == "sell"@ ==> (r matches Ok(res) ==> sell_token_result(old(self).model(), tx@, res@)))
                &&& (tx@.action == "lock_liquidity"@ ==> (r matches Ok(res) ==> lock_liquidity_result(tx@, res@, old(self).module_height())))
            }),
            // an NFT transaction is dispatched to the registry module
            ({
                &&& structurally_valid(tx@, old(self).block_time(), now)
                &&& !rate_limited(old(self).limiter(), tx@.from, now)
                &&& tx@.module == "nft"@
            }) ==> ({
                &&& (tx@.action == "create_collection"@ ==> (r matches Ok(res)
                    ==> created_collection_post(old(self).model(), final(self).model(), tx@, res@, now)))
                &&& (tx@.action == "mint"@ ==> (r matches Ok(res)
                    ==> minted_post(old(self).model(), final(self).model(), tx@, res@, now)))
                &&& (tx@.action == "transfer"@ ==> ({
                    &&& (r matches Ok(res) ==> nft_transfer_ok(old(self).model(), tx@)
                        && final(self).model() == nft_transfer_model(old(self).model(), tx@, now)
                        && nft_transfer_result(tx@, res@))
                    &&& (old(self).infallible() ==> (r is Ok <==> nft_transfer_ok(old(self).model(), tx@)))
                }))
                &&& (tx@.action == "burn"@ ==> ({
                    &&& (r matches Ok(res) ==> burn_nft_ok(old(self).model(), tx@)
                        && final(self).model() == burn_nft_model(old(self).model(), tx@)
                        && burn_nft_result(tx@, res@))
                    &&& (old(self).infallible() ==> (r is Ok <==> burn_nft_ok(old(self).model(), tx@)))
                }))
                &&& (tx@.action == "update_metadata"@ ==> ({
                    &&& (r matches Ok(res) ==> update_metadata_ok(old(self).model(), tx@)
                        && final(self).model() == update_metadata_model(old(self).model(), tx@, now)
                        && update_metadata_result(tx@, res@))
                    &&& (old(self).infallible() ==> (r is Ok <==> update_metadata_ok(old(self).model(), tx@)))
                }))
            }),
            // a common-module transaction touches no storage; it
            // succeeds exactly when the request carries what it reads
            ({
                &&& structurally_valid(tx@, old(self).block_time(), now)
                &&& !rate_limited(old(self).limiter(), tx@.from, now)
                &&& tx@.module == "common"@
            }) ==> ({
                &&& (r is Ok <==> common_action_ok(tx@))
                &&& final(self).model() == old(self).model()
            }),
            // under an infallible backend a failed submission leaves
            // the store unchanged
            old(self).infallible() ==> (r is Err ==> final(self).model() == old(self).model()),
    {
        proof {
            reveal_strlit("nft");
            reveal_strlit("meme");
            reveal_strlit("common");
            // the three module names are pairwise distinct
            assert("nft"@.len() == 3);
            assert("meme"@.len() == 4);
            assert("common"@.len() == 6);
        }
        match self.validate_transaction(tx, now) {
            Err(e) => { return Err(e); }
            Ok(()) => {}
        }
        let from = tx.from.clone();
        match self.check_rate_limit(&from, now) {
            Err(e) => { return Err(e); }
            Ok(()) => {}
        }
        let result = if str_eq(tx.module.as_str(), "nft") {
            let modu = &self.nft_module;
            modu.process_transaction(&mut self.storage, tx, now)
        } else if str_eq(tx.module.as_str(), "meme") {
            let modu = &self.meme_module;
            modu.process_transaction(&mut self.storage, tx, now)
        } else if str_eq(tx.module.as_str(), "common") {
            self.common_module.process_transaction(tx)
        } else {
            return Err(MemeChainError::Validation(String::from_str("unknown module")));
        };
        // the sender is stamped again after the module call returns,
        // whether it succeeded or failed
        self.update_rate_limiter(&from, now);
        result
    }

    /// Assemble a block: drain the whole pending pool, run every
    /// drained transaction through the pipeline in order, capture a
    /// failed transaction as a failed result without aborting the
    /// batch, and persist the block one height above the previous.
    pub fn create_block(&mut self, now: i64) -> (r: Result<Block, MemeChainError>)
        requires
            old(self).inv(),
            old(self).height() < u64::MAX,
        ensures
            final(self).inv(),
            final(self).infallible() == old(self).infallible(),
            final(self).block_time() == old(self).block_time(),
            r matches Ok(b) ==> ({
                &&& final(self).pool() == Seq::<Transaction>::empty()
                &&& final(self).height() == old(self).height() + 1
                &&& b.height == old(self).height() + 1
                &&& b.timestamp == now
                &&& b@.transactions == txs_view(old(self).pool())
                &&& b@.results.len() == b@.transactions.len()
                &&& forall|i: int| 0 <= i < b@.results.len()
                    ==> (#[trigger] b@.results[i]).success ==> b@.results[i].error is None
                &&& b@.hash.len() == 0
                &&& b@.previous_hash.len() == 0
            }),
            // a failed transaction is captured in place, with its
            // error message, and does not abort the batch
            r matches Ok(b) ==> forall|i: int| 0 <= i < b@.results.len()
                ==> (!(#[trigger] b@.results[i]).success ==> b@.results[i].error is Some),
            // a transaction the pipeline cannot dispatch fails at its
            // own index
            r matches Ok(b) ==> forall|i: int| 0 <= i < b@.transactions.len()
                ==> (!admissible(#[trigger] b@.transactions[i], old(self).block_time(), now)
                    ==> !b@.results[i].success),
            // the block is persisted under its height's key
            r matches Ok(b) ==> final(self).model().contains_key(block_key(b.height))
                && final(self).model()[block_key(b.height)] == enc_block(b@),
            old(self).infallible() ==> r is Ok,
    {
        let mut transactions: Vec<Transaction> = Vec::new();
        core::mem::swap(&mut transactions, &mut self.tx_pool);
        let mut results: Vec<TransactionResult> = Vec::new();
        let n = transactions.len();
        let mut i: usize = 0;
        while i < n
            invariant
                self.inv(),
                self.infallible() == old(self).infallible(),
                self.block_time() == old(self).block_time(),
                self.height() == old(self).height(),
                self.pool() == Seq::<Transaction>::empty(),
                n == transactions@.len(),
                0 <= i <= n,
                results@.len() == i,
                forall|w: int| 0 <= w < results@.len()
                    ==> ((#[trigger] results@[w]).success ==> results@[w].error is None),
                forall|w: int| 0 <= w < results@.len()
                    ==> (!(#[trigger] results@[w]).success ==> results@[w].error is Some),
                forall|w: int| 0 <= w < results@.len()
                    ==> (!admissible((#[trigger] transactions@[w])@, old(self).block_time(), now)
                        ==> !results@[w].success),
            decreases n - i,
        {
            let tx = transactions[i].clone();
            match self.process_transaction(&tx, now) {
                Ok(res) => {
                    results.push(res);
                }
                Err(e) => {
                    results.push(TransactionResult::failure(e.to_message()));
                }
            }
            i += 1;
        }
        let block = Block::new(self.block_height + 1, transactions, results, String::new(), now);
        self.block_height = self.block_height + 1;
        match self.storage.store_block(&block) {
            Err(e) => { return Err(e); }
            Ok(()) => {}
        }
        proof {
            assert(block@.transactions =~= txs_view(old(self).pool()));
        }
        Ok(block)
    }

    /// Get the current block height.
    pub fn block_height(&self) -> (r: u64)
        ensures
            r == self.height(),
    {
        self.block_height
    }

    /// Get the transaction pool size.
    pub fn tx_pool_size(&self) -> (r: usize)
        ensures
            r == self.pool().len(),
    {
        self.tx_pool.len()
    }

    /// Get the NFT module.
    pub fn nft_module(&self) -> &NftModule {
        &self.nft_module
    }

    /// Get the token module.
    pub fn meme_module(&self) -> &MemeModule {
        &self.meme_module
    }

    /// Get the common module.
    pub fn common_module(&self) -> &CommonModule {
        &self.common_module
    }

    /// Get the storage.
    pub fn storage(&self) -> (r: &Storage)
        ensures
            r.model() == self.model(),
            self.inv() ==> r.inv(),
            r.infallible() == self.infallible(),
    {
        &self.storage
    }

    /// Advance the token module's cached block height.
    pub fn update_module_height(&mut self, height: u64)
        ensures
            final(self).inv() == old(self).inv(),
            final(self).model() == old(self).model(),
            final(self).module_height() == height,
            final(self).pool() == old(self).pool(),
            final(self).limiter() == old(self).limiter(),
            final(self).height() == old(self).height(),
            final(self).infallible() == old(self).infallible(),
            final(self).block_time() == old(self).block_time(),
    {
        self.meme_module.update_block_height(height);
    }

}

} // verus!
