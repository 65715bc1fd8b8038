//! The fungible-token module: token creation with anti-rug policy,
//! transfers, one-sided buys and sells, and liquidity locking.

use vstd::prelude::*;
use crate::error::{MemeChainError, MemeError, ModuleError};
use crate::types::{Address, AntiRugSettings, Balance, BalanceV, Payload, Token, TokenV, Transaction, TransactionResult, TransactionV, TransactionResultV};
use crate::storage::{Storage, stored_balance, stored_token, balance_key, token_key, tokens_listed, tokens_complete};
use crate::codec::{enc_balance, enc_token};
use crate::common::str_eq;

verus! {

/// The default anti-rug policy applied when a creation supplies none.
pub open spec fn default_anti() -> AntiRugSettings {
    AntiRugSettings {
        max_wallet_percentage: 5,
        buy_tax_percentage: 2,
        sell_tax_percentage: 3,
        liquidity_locked_percentage: 80,
        lock_duration_blocks: 1000,
        lock_start_block: None,
    }
}

/// The policy a creation request carries, or the default.
pub open spec fn anti_of(d: Option<AntiRugSettings>) -> AntiRugSettings {
    match d {
        Some(a) => a,
        None => default_anti(),
    }
}

/// The store after debiting a balance: the sender's record is replaced
/// with the reduced amount, stamped at `now`.
pub open spec fn debited(m: Map<Seq<char>, Seq<u8>>, addr: Seq<char>, tok: Seq<char>, amount: u64, now: i64) -> Map<Seq<char>, Seq<u8>> {
    let b = stored_balance(m, addr, tok)->0;
    m.insert(balance_key(addr, tok), enc_balance(BalanceV {
        address: addr,
        token: tok,
        amount: (b.amount - amount) as u64,
        updated_at: now,
    }))
}

/// The store after crediting a balance: the recipient's record, which
/// starts at zero when absent, grows by `add` and is stamped at `now`.
pub open spec fn credited(m: Map<Seq<char>, Seq<u8>>, addr: Seq<char>, tok: Seq<char>, add: u64, now: i64) -> Map<Seq<char>, Seq<u8>> {
    let cur: int = match stored_balance(m, addr, tok) {
        Some(b) => b.amount as int,
        None => 0,
    };
    m.insert(balance_key(addr, tok), enc_balance(BalanceV {
        address: addr,
        token: tok,
        amount: (cur + add) as u64,
        updated_at: now,
    }))
}

/// The store after a transfer: debit the sender, then credit the
/// recipient against the debited store, in that order.
pub open spec fn transfer_model(m: Map<Seq<char>, Seq<u8>>, from: Seq<char>, to: Seq<char>, tok: Seq<char>, amount: u64, now: i64) -> Map<Seq<char>, Seq<u8>> {
    credited(debited(m, from, tok, amount, now), to, tok, amount, now)
}

/// A transfer is legal: the sender holds at least the amount, and the
/// recipient's credit neither overflows nor lands on a corrupt record.
/// A self-transfer is always creditable: it restores what it debited.
pub open spec fn transfer_ok(m: Map<Seq<char>, Seq<u8>>, from: Seq<char>, to: Seq<char>, tok: Seq<char>, amount: u64, now: i64) -> bool {
    &&& stored_balance(m, from, tok) matches Some(fb) && fb.amount >= amount
    &&& (to == from || ({
        ||| (stored_balance(m, to, tok) matches Some(tb) && tb.amount + amount <= u64::MAX)
        ||| !m.contains_key(balance_key(to, tok))
    }))
}

// ---------------------------------------------------------------------
// The success condition, store effect and result payload of each
// action, named so that the dispatcher and the pipeline can carry the
// same statements as the action functions themselves.
// ---------------------------------------------------------------------

/// When a token creation succeeds: the three fields are present, the
/// symbol is fresh, and the policy (given or defaulted) is well formed.
pub open spec fn create_token_ok(m: Map<Seq<char>, Seq<u8>>, tx: TransactionV) -> bool {
    &&& tx.data.name is Some
    &&& tx.data.symbol is Some
    &&& tx.data.supply is Some
    &&& !m.contains_key(token_key(tx.data.symbol->0))
    &&& anti_of(tx.data.anti_rug).wf()
}

/// The store after a successful token creation: the token record and
/// the creator's full-supply balance.
pub open spec fn create_token_model(m: Map<Seq<char>, Seq<u8>>, tx: TransactionV, now: i64) -> Map<Seq<char>, Seq<u8>> {
    let sym = tx.data.symbol->0;
    m.insert(token_key(sym), enc_token(TokenV {
        symbol: sym,
        name: tx.data.name->0,
        total_supply: tx.data.supply->0,
        creator: tx.from,
        anti_rug: anti_of(tx.data.anti_rug),
        created_at: now,
        updated_at: now,
    })).insert(balance_key(tx.from, sym), enc_balance(BalanceV {
        address: tx.from,
        token: sym,
        amount: tx.data.supply->0,
        updated_at: now,
    }))
}

/// The result payload of a successful token creation.
pub open spec fn create_token_result(tx: TransactionV, res: TransactionResultV) -> bool {
    res.data matches Some(d)
        && d.symbol == Some(tx.data.symbol->0)
        && d.name == Some(tx.data.name->0)
        && d.supply == Some(tx.data.supply->0)
        && d.creator == Some(tx.from)
}

/// When a transfer succeeds: the fields are present and the move is
/// legal on the current store.
pub open spec fn transfer_token_ok(m: Map<Seq<char>, Seq<u8>>, tx: TransactionV, now: i64) -> bool {
    &&& tx.data.token is Some
    &&& tx.data.amount is Some
    &&& tx.to is Some
    &&& transfer_ok(m, tx.from, tx.to->0, tx.data.token->0, tx.data.amount->0, now)
}

/// The result payload of a successful transfer.
pub open spec fn transfer_token_result(tx: TransactionV, res: TransactionResultV) -> bool {
    res.data matches Some(d)
        && d.token == Some(tx.data.token->0)
        && d.amount == Some(tx.data.amount->0)
        && d.from == Some(tx.from)
        && d.to == Some(tx.to->0)
}

/// When a buy succeeds: the fields are present, the token is stored
/// with a well-formed policy, and the credit fits.
pub open spec fn buy_token_ok(m: Map<Seq<char>, Seq<u8>>, tx: TransactionV) -> bool {
    &&& tx.data.token is Some
    &&& tx.data.amount is Some
    &&& stored_token(m, tx.data.token->0) matches Some(tv)
        && tv.anti_rug.wf()
        && ({
            let amount = tx.data.amount->0;
            let recv = amount - tv.anti_rug.spec_buy_tax(amount);
            ||| (stored_balance(m, tx.from, tx.data.token->0) matches Some(b)
                && b.amount + recv <= u64::MAX)
            ||| !m.contains_key(balance_key(tx.from, tx.data.token->0))
        })
}

/// The store after a successful buy: the buyer is credited with the
/// amount minus the buy tax; nothing else moves.
pub open spec fn buy_token_model(m: Map<Seq<char>, Seq<u8>>, tx: TransactionV, now: i64) -> Map<Seq<char>, Seq<u8>> {
    let tok = tx.data.token->0;
    let amount = tx.data.amount->0;
    let tv = stored_token(m, tok)->0;
    credited(m, tx.from, tok, (amount - tv.anti_rug.spec_buy_tax(amount)) as u64, now)
}

/// The result payload of a successful buy.
pub open spec fn buy_token_result(m: Map<Seq<char>, Seq<u8>>, tx: TransactionV, res: TransactionResultV) -> bool {
    let tok = tx.data.token->0;
    let amount = tx.data.amount->0;
    let tax = (stored_token(m, tok)->0).anti_rug.spec_buy_tax(amount);
    res.data matches Some(d)
        && d.token == Some(tok)
        && d.amount == Some((amount - tax) as u64)
        && d.tax == Some(tax as u64)
        && d.buyer == Some(tx.from)
}

/// When a sell succeeds: the fields are present, the token is stored
/// with a well-formed policy, the lock window is over at the cached
/// height, and the seller covers the amount.
pub open spec fn sell_token_ok(m: Map<Seq<char>, Seq<u8>>, tx: TransactionV, height: u64) -> bool {
    &&& tx.data.token is Some
    &&& tx.data.amount is Some
    &&& stored_token(m, tx.data.token->0) matches Some(tv)
        && tv.anti_rug.wf() && !tv.anti_rug.spec_locked(height)
    &&& stored_balance(m, tx.from, tx.data.token->0) matches Some(sb)
        && sb.amount >= tx.data.amount->0
}

/// The store after a successful sell: the seller is debited the full
/// amount; the tax is credited nowhere, so it is effectively burned.
pub open spec fn sell_token_model(m: Map<Seq<char>, Seq<u8>>, tx: TransactionV, now: i64) -> Map<Seq<char>, Seq<u8>> {
    debited(m, tx.from, tx.data.token->0, tx.data.amount->0, now)
}

/// The result payload of a successful sell.
pub open spec fn sell_token_result(m: Map<Seq<char>, Seq<u8>>, tx: TransactionV, res: TransactionResultV) -> bool {
    let tok = tx.data.token->0;
    let amount = tx.data.amount->0;
    let tax = (stored_token(m, tok)->0).anti_rug.spec_sell_tax(amount);
    res.data matches Some(d)
        && d.token == Some(tok)
        && d.amount == Some((amount - tax) as u64)
        && d.tax == Some(tax as u64)
        && d.seller == Some(tx.from)
}

/// When a liquidity lock succeeds: the fields are present, the token
/// is stored, and the sender is its creator.
pub open spec fn lock_liquidity_ok(m: Map<Seq<char>, Seq<u8>>, tx: TransactionV) -> bool {
    &&& tx.data.token is Some
    &&& tx.data.duration_blocks is Some
    &&& stored_token(m, tx.data.token->0) matches Some(tv) && tv.creator == tx.from
}

/// The store after a successful liquidity lock: the token's policy
/// gains the lock window starting at the cached height.
pub open spec fn lock_liquidity_model(m: Map<Seq<char>, Seq<u8>>, tx: TransactionV, height: u64, now: i64) -> Map<Seq<char>, Seq<u8>> {
    let tok = tx.data.token->0;
    let tv = stored_token(m, tok)->0;
    m.insert(token_key(tok), enc_token(TokenV {
        symbol: tok,
        anti_rug: AntiRugSettings {
            lock_start_block: Some(height),
            lock_duration_blocks: tx.data.duration_blocks->0,
            ..tv.anti_rug
        },
        updated_at: now,
        ..tv
    }))
}

/// The result payload of a successful liquidity lock.
pub open spec fn lock_liquidity_result(tx: TransactionV, res: TransactionResultV, height: u64) -> bool {
    res.data matches Some(d)
        && d.token == Some(tx.data.token->0)
        && d.lock_start_block == Some(height)
        && d.lock_duration_blocks == Some(tx.data.duration_blocks->0)
        && d.locked_by == Some(tx.from)
}

/// Whether the token action named by the transaction succeeds on this
/// store, at this cached height.
pub open spec fn meme_action_ok(m: Map<Seq<char>, Seq<u8>>, tx: TransactionV, height: u64, now: i64) -> bool {
    if tx.action == "create_token"@ {
        create_token_ok(m, tx)
    } else if tx.action == "transfer"@ {
        transfer_token_ok(m, tx, now)
    } else if tx.action == "buy"@ {
        buy_token_ok(m, tx)
    } else if tx.action == "sell"@ {
        sell_token_ok(m, tx, height)
    } else if tx.action == "lock_liquidity"@ {
        lock_liquidity_ok(m, tx)
    } else {
        false
    }
}

/// The store after the named token action succeeds.
pub open spec fn meme_action_model(m: Map<Seq<char>, Seq<u8>>, tx: TransactionV, height: u64, now: i64) -> Map<Seq<char>, Seq<u8>> {
    if tx.action == "create_token"@ {
        create_token_model(m, tx, now)
    } else if tx.action == "transfer"@ {
        transfer_model(m, tx.from, tx.to->0, tx.data.token->0, tx.data.amount->0, now)
    } else if tx.action == "buy"@ {
        buy_token_model(m, tx, now)
    } else if tx.action == "sell"@ {
        sell_token_model(m, tx, now)
    } else if tx.action == "lock_liquidity"@ {
        lock_liquidity_model(m, tx, height, now)
    } else {
        m
    }
}

/// The error carried by a duplicate-symbol conflict.
pub open spec fn is_token_exists(e: MemeChainError) -> bool {
    e matches MemeChainError::Module(me) && me matches ModuleError::Meme(m2) && m2 is TokenExists
}

/// The error carried by an absent token.
pub open spec fn is_token_not_found(e: MemeChainError) -> bool {
    e matches MemeChainError::Module(me) && me matches ModuleError::Meme(m2) && m2 is TokenNotFound
}

/// The error carried by an uncovered debit.
pub open spec fn is_insufficient_balance(e: MemeChainError) -> bool {
    e matches MemeChainError::Module(me) && me matches ModuleError::Meme(m2) && m2 is InsufficientBalance
}

/// The error carried by a sell inside the lock window.
pub open spec fn is_liquidity_locked_err(e: MemeChainError) -> bool {
    e matches MemeChainError::Module(me) && me matches ModuleError::Meme(m2) && m2 is LiquidityNotLocked
}

/// Token module for managing tokens with anti-rug features. It holds
/// a locally cached block height that a caller must advance before
/// height-sensitive checks are current.
#[derive(Debug)]
pub struct MemeModule {
    current_block_height: u64,
}

impl MemeModule {
    /// The cached block height.
    pub closed spec fn height(&self) -> u64 {
        self.current_block_height
    }

    /// Create a new token module at height zero.
    pub fn new() -> (r: Self)
        ensures
            r.height() == 0,
    {
        MemeModule { current_block_height: 0 }
    }

    /// Update the cached block height.
    pub fn update_block_height(&mut self, height: u64)
        ensures
            final(self).height() == height,
    {
        self.current_block_height = height;
    }

    /// Route a token transaction by its action name; an unrecognized
    /// action is a module-level failure. The routed call succeeds
    /// exactly when its action's condition holds, and then effects
    /// exactly its action's store transition and result payload.
    pub fn process_transaction(&self, storage: &mut Storage, tx: &Transaction, now: i64) -> (r: Result<TransactionResult, MemeChainError>)
        requires
            old(storage).inv(),
        ensures
            final(storage).inv(),
            final(storage).infallible() == old(storage).infallible(),
            r matches Ok(res) ==> res.success && res.error is None,
            r matches Ok(res) ==> meme_action_ok(old(storage).model(), tx@, self.height(), now)
                && final(storage).model() == meme_action_model(old(storage).model(), tx@, self.height(), now),
            old(storage).infallible() ==> (r is Ok <==> meme_action_ok(old(storage).model(), tx@, self.height(), now)),
            old(storage).infallible() ==> (r is Err ==> final(storage).model() == old(storage).model()),
            tx@.action == "create_token"@ ==> (r matches Ok(res) ==> create_token_result(tx@, res@)),
            tx@.action == "transfer"@ ==> (r matches Ok(res) ==> transfer_token_result(tx@, res@)),
            tx@.action == "buy"@ ==> (r matches Ok(res) ==> buy_token_result(old(storage).model(), tx@, res@)),
            tx@.action == "sell"@ ==> (r matches Ok(res) ==> sell_token_result(old(storage).model(), tx@, res@)),
            tx@.action == "lock_liquidity"@ ==> (r matches Ok(res) ==> lock_liquidity_result(tx@, res@, self.height())),
            !(tx@.action == "create_token"@ || tx@.action == "transfer"@ || tx@.action == "buy"@
                || tx@.action == "sell"@ || tx@.action == "lock_liquidity"@)
                ==> r is Err && final(storage).model() == old(storage).model(),
    {
        proof {
            reveal_strlit("create_token");
            reveal_strlit("transfer");
            reveal_strlit("buy");
            reveal_strlit("sell");
            reveal_strlit("lock_liquidity");
            // the five action names have pairwise different lengths
            assert("create_token"@.len() == 12);
            assert("transfer"@.len() == 8);
            assert("buy"@.len() == 3);
            assert("sell"@.len() == 4);
            assert("lock_liquidity"@.len() == 14);
        }
        if str_eq(tx.action.as_str(), "create_token") {
            self.create_token(storage, tx, now)
        } else if str_eq(tx.action.as_str(), "transfer") {
            self.transfer_token(storage, tx, now)
        } else if str_eq(tx.action.as_str(), "buy") {
            self.buy_token(storage, tx, now)
        } else if str_eq(tx.action.as_str(), "sell") {
            self.sell_token(storage, tx, now)
        } else if str_eq(tx.action.as_str(), "lock_liquidity") {
            self.lock_liquidity(storage, tx, now)
        } else {
            Err(MemeError::InvalidSymbol(String::from_str("unknown action")).wrap())
        }
    }

    /// Create a new token: the symbol must be fresh; the creator is
    /// credited with the full supply. Creating the same symbol a
    /// second time fails with a token-exists conflict and changes
    /// nothing.
    pub fn create_token(&self, storage: &mut Storage, tx: &Transaction, now: i64) -> (r: Result<TransactionResult, MemeChainError>)
        requires
            old(storage).inv(),
        ensures
            final(storage).inv(),
            final(storage).infallible() == old(storage).infallible(),
            r matches Ok(res) ==> ({
                &&& res.success && res.error is None
                &&& create_token_ok(old(storage).model(), tx@)
                &&& final(storage).model() == create_token_model(old(storage).model(), tx@, now)
                &&& create_token_result(tx@, res@)
            }),
            (tx@.data.name is None || tx@.data.symbol is None || tx@.data.supply is None)
                ==> r is Err && final(storage).model() == old(storage).model(),
            ({
                &&& tx@.data.name is Some
                &&& tx@.data.symbol is Some
                &&& tx@.data.supply is Some
                &&& old(storage).model().contains_key(token_key(tx@.data.symbol->0))
            }) ==> r is Err && final(storage).model() == old(storage).model(),
            ({
                &&& old(storage).infallible()
                &&& tx@.data.name is Some
                &&& tx@.data.symbol is Some
                &&& tx@.data.supply is Some
                &&& stored_token(old(storage).model(), tx@.data.symbol->0) is Some
            }) ==> (r matches Err(e) && is_token_exists(e)),
            old(storage).infallible() ==> (r is Ok <==> create_token_ok(old(storage).model(), tx@)),
            old(storage).infallible() ==> (r is Err ==> final(storage).model() == old(storage).model()),
    {
        let name = match &tx.data.name {
            None => { return Err(MemeError::InvalidName(String::from_str("missing token name")).wrap()); }
            Some(s) => s.clone(),
        };
        let symbol = match &tx.data.symbol {
            None => { return Err(MemeError::InvalidSymbol(String::from_str("missing token symbol")).wrap()); }
            Some(s) => s.clone(),
        };
        let supply = match tx.data.supply {
            None => { return Err(MemeError::InvalidSupply(String::from_str("missing or invalid supply")).wrap()); }
            Some(v) => v,
        };
        match storage.get_token(symbol.as_str()) {
            Err(e) => { return Err(e); }
            Ok(Some(_)) => {
                return Err(MemeError::TokenExists(symbol).wrap());
            }
            Ok(None) => {}
        }
        let anti_rug = match tx.data.anti_rug {
            Some(a) => a,
            None => AntiRugSettings::default(),
        };
        if !(anti_rug.max_wallet_percentage <= 100 && anti_rug.buy_tax_percentage <= 100
            && anti_rug.sell_tax_percentage <= 100 && anti_rug.liquidity_locked_percentage <= 100) {
            return Err(MemeError::InvalidAntiRugSettings(String::from_str("percentages must be at most 100")).wrap());
        }
        let creator = tx.from.clone();
        let token = Token::new(symbol.clone(), name.clone(), supply, creator, anti_rug, now);
        match storage.store_token(&token) {
            Err(e) => { return Err(e); }
            Ok(()) => {}
        }
        let initial_balance = Balance::new(tx.from.clone(), symbol.clone(), supply, now);
        match storage.store_balance(&initial_balance) {
            Err(e) => { return Err(e); }
            Ok(()) => {}
        }
        let mut data = Payload::empty();
        data.symbol = Some(symbol);
        data.name = Some(name);
        data.supply = Some(supply);
        data.creator = Some(String::from_str(tx.from.as_str()));
        Ok(TransactionResult::success(Some(data)))
    }

    /// Transfer tokens: requires an existing sender balance covering
    /// the amount; debits the sender, then credits the recipient,
    /// creating its record when absent. Every check precedes the first
    /// write, so a refused transfer changes nothing.
    pub fn transfer_token(&self, storage: &mut Storage, tx: &Transaction, now: i64) -> (r: Result<TransactionResult, MemeChainError>)
        requires
            old(storage).inv(),
        ensures
            final(storage).inv(),
            final(storage).infallible() == old(storage).infallible(),
            r matches Ok(res) ==> ({
                &&& res.success && res.error is None
                &&& transfer_token_ok(old(storage).model(), tx@, now)
                &&& final(storage).model() == transfer_model(old(storage).model(), tx@.from, tx@.to->0, tx@.data.token->0, tx@.data.amount->0, now)
                &&& transfer_token_result(tx@, res@)
            }),
            (tx@.data.token is None || tx@.data.amount is None || tx@.to is None)
                ==> r is Err && final(storage).model() == old(storage).model(),
            ({
                &&& tx@.data.token is Some
                &&& tx@.data.amount is Some
                &&& tx@.to is Some
                &&& !old(storage).model().contains_key(balance_key(tx@.from, tx@.data.token->0))
            }) ==> r is Err && final(storage).model() == old(storage).model(),
            ({
                &&& tx@.data.token is Some
                &&& tx@.data.amount is Some
                &&& tx@.to is Some
                &&& stored_balance(old(storage).model(), tx@.from, tx@.data.token->0) matches Some(fb)
                    && fb.amount < tx@.data.amount->0
            }) ==> r is Err && final(storage).model() == old(storage).model(),
            ({
                &&& old(storage).infallible()
                &&& tx@.data.token is Some
                &&& tx@.data.amount is Some
                &&& tx@.to is Some
                &&& (!old(storage).model().contains_key(balance_key(tx@.from, tx@.data.token->0))
                    || (stored_balance(old(storage).model(), tx@.from, tx@.data.token->0) matches Some(fb)
                        && fb.amount < tx@.data.amount->0))
            }) ==> (r matches Err(e) && is_insufficient_balance(e)),
            old(storage).infallible() ==> (r is Ok <==> transfer_token_ok(old(storage).model(), tx@, now)),
            old(storage).infallible() ==> (r is Err ==> final(storage).model() == old(storage).model()),
    {
        let token_symbol = match &tx.data.token {
            None => { return Err(MemeError::InvalidSymbol(String::from_str("missing token symbol")).wrap()); }
            Some(s) => s.clone(),
        };
        let amount = match tx.data.amount {
            None => { return Err(MemeError::InvalidSupply(String::from_str("missing or invalid amount")).wrap()); }
            Some(v) => v,
        };
        let to_address = match &tx.to {
            None => { return Err(MemeError::TransferFailed(String::from_str("missing recipient address")).wrap()); }
            Some(a) => a.clone(),
        };
        let mut from_balance = match storage.get_balance(&tx.from, token_symbol.as_str()) {
            Err(e) => { return Err(e); }
            Ok(None) => {
                return Err(MemeError::InsufficientBalance(String::from_str("no balance for sender")).wrap());
            }
            Ok(Some(b)) => b,
        };
        if from_balance.amount < amount {
            return Err(MemeError::InsufficientBalance(String::from_str("insufficient balance")).wrap());
        }
        match from_balance.subtract(amount, now) {
            Err(e) => { return Err(e); }
            Ok(()) => {}
        }
        // read the recipient before writing anything, so that every
        // check precedes the first store; a self-transfer sees the
        // debited amount, as it would after the debit landed
        let cur_amount: u64 = if to_address == tx.from {
            from_balance.amount
        } else {
            match storage.get_balance(&to_address, token_symbol.as_str()) {
                Err(e) => { return Err(e); }
                Ok(None) => 0,
                Ok(Some(b)) => b.amount,
            }
        };
        if cur_amount > u64::MAX - amount {
            return Err(MemeError::TransferFailed(String::from_str("recipient balance overflow")).wrap());
        }
        let new_from = Balance::new(tx.from.clone(), token_symbol.clone(), from_balance.amount, now);
        match storage.store_balance(&new_from) {
            Err(e) => { return Err(e); }
            Ok(()) => {}
        }
        proof {
            assert(storage.model() == debited(old(storage).model(), tx@.from, token_symbol@, amount, now));
            if to_address@ == tx@.from {
                // the credit leg reads back the record this debit wrote
                assert(stored_balance(storage.model(), to_address@, token_symbol@) == Some(new_from@));
            } else {
                if balance_key(to_address@, token_symbol@) == balance_key(tx@.from, token_symbol@) {
                    lemma_balance_key_inj(to_address@, tx@.from, token_symbol@);
                }
                lemma_stored_balance_congruent(storage.model(), old(storage).model(), to_address@, token_symbol@);
            }
        }
        let new_to = Balance::new(to_address.clone(), token_symbol.clone(), cur_amount + amount, now);
        match storage.store_balance(&new_to) {
            Err(e) => { return Err(e); }
            Ok(()) => {}
        }
        proof {
            assert(storage.model() == transfer_model(old(storage).model(), tx@.from, to_address@, token_symbol@, amount, now));
        }
        let mut data = Payload::empty();
        data.token = Some(token_symbol);
        data.amount = Some(amount);
        data.from = Some(String::from_str(tx.from.as_str()));
        data.to = Some(String::from_str(to_address.as_str()));
        Ok(TransactionResult::success(Some(data)))
    }

    /// Buy tokens in the simplified one-sided model: the buyer is
    /// credited with the amount minus the buy tax, with no matching
    /// debit anywhere. A refused buy changes nothing.
    pub fn buy_token(&self, storage: &mut Storage, tx: &Transaction, now: i64) -> (r: Result<TransactionResult, MemeChainError>)
        requires
            old(storage).inv(),
        ensures
            final(storage).inv(),
            final(storage).infallible() == old(storage).infallible(),
            r matches Ok(res) ==> ({
                &&& res.success && res.error is None
                &&& buy_token_ok(old(storage).model(), tx@)
                &&& final(storage).model() == buy_token_model(old(storage).model(), tx@, now)
                &&& buy_token_result(old(storage).model(), tx@, res@)
            }),
            (tx@.data.token is None || tx@.data.amount is None)
                ==> r is Err && final(storage).model() == old(storage).model(),
            ({
                &&& tx@.data.token is Some
                &&& tx@.data.amount is Some
                &&& !old(storage).model().contains_key(token_key(tx@.data.token->0))
            }) ==> r is Err && final(storage).model() == old(storage).model(),
            ({
                &&& old(storage).infallible()
                &&& tx@.data.token is Some
                &&& tx@.data.amount is Some
                &&& !old(storage).model().contains_key(token_key(tx@.data.token->0))
            }) ==> (r matches Err(e) && is_token_not_found(e)),
            old(storage).infallible() ==> (r is Ok <==> buy_token_ok(old(storage).model(), tx@)),
            old(storage).infallible() ==> (r is Err ==> final(storage).model() == old(storage).model()),
    {
        let token_symbol = match &tx.data.token {
            None => { return Err(MemeError::InvalidSymbol(String::from_str("missing token symbol")).wrap()); }
            Some(s) => s.clone(),
        };
        let amount = match tx.data.amount {
            None => { return Err(MemeError::InvalidSupply(String::from_str("missing or invalid amount")).wrap()); }
            Some(v) => v,
        };
        let token = match storage.get_token(token_symbol.as_str()) {
            Err(e) => { return Err(e); }
            Ok(None) => {
                return Err(MemeError::TokenNotFound(token_symbol).wrap());
            }
            Ok(Some(t)) => t,
        };
        if !(token.anti_rug.max_wallet_percentage <= 100 && token.anti_rug.buy_tax_percentage <= 100
            && token.anti_rug.sell_tax_percentage <= 100 && token.anti_rug.liquidity_locked_percentage <= 100) {
            return Err(MemeError::InvalidAntiRugSettings(String::from_str("stored policy is malformed")).wrap());
        }
        let buy_tax = token.anti_rug.calculate_buy_tax(amount);
        let tokens_received = amount - buy_tax;
        let cur_amount: u64 = match storage.get_balance(&tx.from, token_symbol.as_str()) {
            Err(e) => { return Err(e); }
            Ok(None) => 0,
            Ok(Some(b)) => b.amount,
        };
        if cur_amount > u64::MAX - tokens_received {
            return Err(MemeError::TransferFailed(String::from_str("buyer balance overflow")).wrap());
        }
        let mut buyer_balance = Balance::new(tx.from.clone(), token_symbol.clone(), cur_amount, now);
        buyer_balance.add(tokens_received, now);
        match storage.store_balance(&buyer_balance) {
            Err(e) => { return Err(e); }
            Ok(()) => {}
        }
        proof {
            assert(storage.model() == credited(old(storage).model(), tx@.from, token_symbol@, tokens_received, now));
        }
        let mut data = Payload::empty();
        data.token = Some(token_symbol);
        data.amount = Some(tokens_received);
        data.tax = Some(buy_tax);
        data.buyer = Some(String::from_str(tx.from.as_str()));
        Ok(TransactionResult::success(Some(data)))
    }

    /// Sell tokens: fails while the token's liquidity-lock window is
    /// active; otherwise debits the seller the full amount. The tax is
    /// reported but credited nowhere, so it is effectively burned. A
    /// refused sell changes nothing.
    pub fn sell_token(&self, storage: &mut Storage, tx: &Transaction, now: i64) -> (r: Result<TransactionResult, MemeChainError>)
        requires
            old(storage).inv(),
        ensures
            final(storage).inv(),
            final(storage).infallible() == old(storage).infallible(),
            r matches Ok(res) ==> ({
                &&& res.success && res.error is None
                &&& sell_token_ok(old(storage).model(), tx@, self.height())
                &&& final(storage).model() == sell_token_model(old(storage).model(), tx@, now)
                &&& sell_token_result(old(storage).model(), tx@, res@)
            }),
            (tx@.data.token is None || tx@.data.amount is None)
                ==> r is Err && final(storage).model() == old(storage).model(),
            ({
                &&& tx@.data.token is Some
                &&& tx@.data.amount is Some
                &&& stored_token(old(storage).model(), tx@.data.token->0) matches Some(tv)
                    && tv.anti_rug.wf() && tv.anti_rug.spec_locked(self.height())
            }) ==> r is Err && final(storage).model() == old(storage).model(),
            ({
                &&& old(storage).infallible()
                &&& tx@.data.token is Some
                &&& tx@.data.amount is Some
                &&& stored_token(old(storage).model(), tx@.data.token->0) matches Some(tv)
                    && tv.anti_rug.wf() && tv.anti_rug.spec_locked(self.height())
            }) ==> (r matches Err(e) && is_liquidity_locked_err(e)),
            ({
                &&& old(storage).infallible()
                &&& tx@.data.token is Some
                &&& tx@.data.amount is Some
                &&& !old(storage).model().contains_key(token_key(tx@.data.token->0))
            }) ==> (r matches Err(e) && is_token_not_found(e)),
            old(storage).infallible() ==> (r is Ok <==> sell_token_ok(old(storage).model(), tx@, self.height())),
            old(storage).infallible() ==> (r is Err ==> final(storage).model() == old(storage).model()),
    {
        let token_symbol = match &tx.data.token {
            None => { return Err(MemeError::InvalidSymbol(String::from_str("missing token symbol")).wrap()); }
            Some(s) => s.clone(),
        };
        let amount = match tx.data.amount {
            None => { return Err(MemeError::InvalidSupply(String::from_str("missing or invalid amount")).wrap()); }
            Some(v) => v,
        };
        let token = match storage.get_token(token_symbol.as_str()) {
            Err(e) => { return Err(e); }
            Ok(None) => {
                return Err(MemeError::TokenNotFound(token_symbol).wrap());
            }
            Ok(Some(t)) => t,
        };
        if !(token.anti_rug.max_wallet_percentage <= 100 && token.anti_rug.buy_tax_percentage <= 100
            && token.anti_rug.sell_tax_percentage <= 100 && token.anti_rug.liquidity_locked_percentage <= 100) {
            return Err(MemeError::InvalidAntiRugSettings(String::from_str("stored policy is malformed")).wrap());
        }
        if token.anti_rug.is_liquidity_locked(self.current_block_height) {
            return Err(MemeError::LiquidityNotLocked(String::from_str("liquidity is currently locked")).wrap());
        }
        let mut seller_balance = match storage.get_balance(&tx.from, token_symbol.as_str()) {
            Err(e) => { return Err(e); }
            Ok(None) => {
                return Err(MemeError::InsufficientBalance(String::from_str("no balance for seller")).wrap());
            }
            Ok(Some(b)) => b,
        };
        if seller_balance.amount < amount {
            return Err(MemeError::InsufficientBalance(String::from_str("insufficient balance")).wrap());
        }
        let sell_tax = token.anti_rug.calculate_sell_tax(amount);
        let tokens_sold = amount - sell_tax;
        match seller_balance.subtract(amount, now) {
            Err(e) => { return Err(e); }
            Ok(()) => {}
        }
        let new_seller = Balance::new(tx.from.clone(), token_symbol.clone(), seller_balance.amount, now);
        match storage.store_balance(&new_seller) {
            Err(e) => { return Err(e); }
            Ok(()) => {}
        }
        proof {
            assert(storage.model() == debited(old(storage).model(), tx@.from, token_symbol@, amount, now));
        }
        let mut data = Payload::empty();
        data.token = Some(token_symbol);
        data.amount = Some(tokens_sold);
        data.tax = Some(sell_tax);
        data.seller = Some(String::from_str(tx.from.as_str()));
        Ok(TransactionResult::success(Some(data)))
    }

    /// Lock liquidity: only the token's creator may lock; the lock
    /// window starts at the cached height for the given duration. A
    /// refused lock changes nothing.
    pub fn lock_liquidity(&self, storage: &mut Storage, tx: &Transaction, now: i64) -> (r: Result<TransactionResult, MemeChainError>)
        requires
            old(storage).inv(),
        ensures
            final(storage).inv(),
            final(storage).infallible() == old(storage).infallible(),
            r matches Ok(res) ==> ({
                &&& res.success && res.error is None
                &&& lock_liquidity_ok(old(storage).model(), tx@)
                &&& final(storage).model() == lock_liquidity_model(old(storage).model(), tx@, self.height(), now)
                &&& lock_liquidity_result(tx@, res@, self.height())
            }),
            (tx@.data.token is None || tx@.data.duration_blocks is None)
                ==> r is Err && final(storage).model() == old(storage).model(),
            ({
                &&& tx@.data.token is Some
                &&& tx@.data.duration_blocks is Some
                &&& stored_token(old(storage).model(), tx@.data.token->0) matches Some(tv)
                    && tv.creator != tx@.from
            }) ==> r is Err && final(storage).model() == old(storage).model(),
            ({
                &&& old(storage).infallible()
                &&& tx@.data.token is Some
                &&& tx@.data.duration_blocks is Some
                &&& stored_token(old(storage).model(), tx@.data.token->0) matches Some(tv)
                    && tv.creator != tx@.from
            }) ==> (r matches Err(e) && e is Unauthorized),
            ({
                &&& old(storage).infallible()
                &&& tx@.data.token is Some
                &&& tx@.data.duration_blocks is Some
                &&& !old(storage).model().contains_key(token_key(tx@.data.token->0))
            }) ==> (r matches Err(e) && is_token_not_found(e)),
            old(storage).infallible() ==> (r is Ok <==> lock_liquidity_ok(old(storage).model(), tx@)),
            old(storage).infallible() ==> (r is Err ==> final(storage).model() == old(storage).model()),
    {
        let token_symbol = match &tx.data.token {
            None => { return Err(MemeError::InvalidSymbol(String::from_str("missing token symbol")).wrap()); }
            Some(s) => s.clone(),
        };
        let lock_duration = match tx.data.duration_blocks {
            None => { return Err(MemeError::InvalidSupply(String::from_str("missing lock duration")).wrap()); }
            Some(v) => v,
        };
        let mut token = match storage.get_token(token_symbol.as_str()) {
            Err(e) => { return Err(e); }
            Ok(None) => {
                return Err(MemeError::TokenNotFound(token_symbol).wrap());
            }
            Ok(Some(t)) => t,
        };
        if !(token.creator == tx.from) {
            return Err(MemeChainError::Unauthorized(String::from_str("only token creator can lock liquidity")));
        }
        token.symbol = token_symbol.clone();
        token.anti_rug.lock_start_block = Some(self.current_block_height);
        token.anti_rug.lock_duration_blocks = lock_duration;
        token.updated_at = now;
        match storage.store_token(&token) {
            Err(e) => { return Err(e); }
            Ok(()) => {}
        }
        let mut data = Payload::empty();
        data.token = Some(token_symbol);
        data.lock_start_block = Some(self.current_block_height);
        data.lock_duration_blocks = Some(lock_duration);
        data.locked_by = Some(String::from_str(tx.from.as_str()));
        Ok(TransactionResult::success(Some(data)))
    }

    /// Get a token by symbol.
    pub fn get_token(&self, storage: &Storage, symbol: &str) -> (r: Result<Option<Token>, MemeChainError>)
        requires
            storage.inv(),
        ensures
            r matches Ok(Some(t)) ==> stored_token(storage.model(), symbol@) == Some(t@),
            r matches Ok(None) ==> !storage.model().contains_key(token_key(symbol@)),
            storage.infallible() ==> (r is Err <==>
                storage.model().contains_key(token_key(symbol@))
                    && stored_token(storage.model(), symbol@) is None),
    {
        storage.get_token(symbol)
    }

    /// Get a balance.
    pub fn get_balance(&self, storage: &Storage, address: &Address, token: &str) -> (r: Result<Option<Balance>, MemeChainError>)
        requires
            storage.inv(),
        ensures
            r matches Ok(Some(b)) ==> stored_balance(storage.model(), address@, token@) == Some(b@),
            r matches Ok(None) ==> !storage.model().contains_key(balance_key(address@, token@)),
            storage.infallible() ==> (r is Err <==>
                storage.model().contains_key(balance_key(address@, token@))
                    && stored_balance(storage.model(), address@, token@) is None),
    {
        storage.get_balance(address, token)
    }

    /// List all tokens, soundly and completely over the decodable
    /// records.
    pub fn list_tokens(&self, storage: &Storage) -> (r: Result<Vec<Token>, MemeChainError>)
        requires
            storage.inv(),
        ensures
            r matches Ok(ts) ==> tokens_listed(storage.model(), ts@),
            r matches Ok(ts) ==> tokens_complete(storage.model(), ts@),
            storage.infallible() ==> r is Ok,
    {
        storage.get_all_tokens()
    }
}

// ---------------------------------------------------------------------
// Conservation of supply
// ---------------------------------------------------------------------

/// The amount a store holds for one address and token; a missing or
/// undecodable record counts as zero.
pub open spec fn bal_amount(m: Map<Seq<char>, Seq<u8>>, a: Seq<char>, tok: Seq<char>) -> int {
    match stored_balance(m, a, tok) {
        Some(b) => b.amount as int,
        None => 0,
    }
}

/// The total balance one token holds across a list of addresses.
pub open spec fn token_total(m: Map<Seq<char>, Seq<u8>>, tok: Seq<char>, addrs: Seq<Seq<char>>) -> int
    decreases addrs.len(),
{
    if addrs.len() == 0 {
        0
    } else {
        token_total(m, tok, addrs.drop_last()) + bal_amount(m, addrs.last(), tok)
    }
}

/// No address appears twice.
pub open spec fn distinct_addrs(addrs: Seq<Seq<char>>) -> bool {
    forall|i: int, j: int| 0 <= i < j < addrs.len() ==> addrs[i] != addrs[j]
}

/// A balance record for this address and token fits the faithful
/// length bound, whatever its amount and timestamp.
pub open spec fn small_balance(a: Seq<char>, tok: Seq<char>) -> bool {
    crate::codec::enc_str(a).len() + crate::codec::enc_str(tok).len() + 16 < crate::codec::len_bound()
}

/// Balance keys of the same token are distinct for distinct addresses.
proof fn lemma_balance_key_inj(a1: Seq<char>, a2: Seq<char>, tok: Seq<char>)
    requires
        balance_key(a1, tok) == balance_key(a2, tok),
    ensures
        a1 == a2,
{
    reveal_strlit("balance:");
    reveal_strlit(":");
    let k1 = balance_key(a1, tok);
    let k2 = balance_key(a2, tok);
    assert("balance:"@.len() == 8);
    assert(":"@.len() == 1);
    assert(k1.len() == 8 + a1.len() + 1 + tok.len());
    assert(k2.len() == 8 + a2.len() + 1 + tok.len());
    assert(a1.len() == a2.len());
    assert forall|i: int| 0 <= i < a1.len() implies a1[i] == a2[i] by {
        assert(k1[8 + i] == a1[i]);
        assert(k2[8 + i] == a2[i]);
    }
    assert(a1 =~= a2);
}

/// Two stores that agree on a balance key hold the same record there.
proof fn lemma_stored_balance_congruent(m1: Map<Seq<char>, Seq<u8>>, m2: Map<Seq<char>, Seq<u8>>, a: Seq<char>, tok: Seq<char>)
    requires
        m1.contains_key(balance_key(a, tok)) == m2.contains_key(balance_key(a, tok)),
        m1.contains_key(balance_key(a, tok))
            ==> m1[balance_key(a, tok)] == m2[balance_key(a, tok)],
    ensures
        stored_balance(m1, a, tok) == stored_balance(m2, a, tok),
{
    let k = balance_key(a, tok);
    if m1.contains_key(k) {
        assert forall|bv: BalanceV|
            (crate::storage::bounded_bal(bv) && m1[k] == enc_balance(bv))
                == (crate::storage::bounded_bal(bv) && m2[k] == enc_balance(bv)) by {}
        if exists|bv: BalanceV| crate::storage::bounded_bal(bv) && m1[k] == enc_balance(bv) {
            let b1 = choose|bv: BalanceV| crate::storage::bounded_bal(bv) && m1[k] == enc_balance(bv);
            let b2 = choose|bv: BalanceV| crate::storage::bounded_bal(bv) && m2[k] == enc_balance(bv);
            crate::codec::lemma_enc_balance_inj(b1, b2);
        }
    }
}

/// The stored record after writing a fresh balance under its key.
proof fn lemma_stored_balance_insert(m: Map<Seq<char>, Seq<u8>>, a: Seq<char>, tok: Seq<char>, bv: BalanceV)
    requires
        bv.address == a,
        bv.token == tok,
        crate::storage::bounded_bal(bv),
    ensures
        stored_balance(m.insert(balance_key(a, tok), enc_balance(bv)), a, tok) == Some(bv),
{
    let m2 = m.insert(balance_key(a, tok), enc_balance(bv));
    let k = balance_key(a, tok);
    assert(m2.contains_key(k));
    assert(m2[k] == enc_balance(bv));
    let b2 = choose|b: BalanceV| crate::storage::bounded_bal(b) && m2[k] == enc_balance(b);
    crate::codec::lemma_enc_balance_inj(b2, bv);
}

/// A balance record over a small address and token pair is bounded.
proof fn lemma_small_bounded(a: Seq<char>, tok: Seq<char>, amount: u64, now: i64)
    requires
        small_balance(a, tok),
    ensures
        crate::storage::bounded_bal(BalanceV { address: a, token: tok, amount, updated_at: now }),
{
    let bv = BalanceV { address: a, token: tok, amount, updated_at: now };
    crate::codec::lemma_enc_u64_len(amount);
    crate::codec::lemma_enc_u64_len(((now - i64::MIN) as u64));
}

/// Totals agree when the two stores agree pointwise except that one
/// address lost `d` and another gained `d`.
proof fn lemma_total_diff(m: Map<Seq<char>, Seq<u8>>, m2: Map<Seq<char>, Seq<u8>>, tok: Seq<char>, addrs: Seq<Seq<char>>, from: Seq<char>, to: Seq<char>, d: int)
    requires
        from != to,
        distinct_addrs(addrs),
        bal_amount(m2, from, tok) == bal_amount(m, from, tok) - d,
        bal_amount(m2, to, tok) == bal_amount(m, to, tok) + d,
        forall|a: Seq<char>| a != from && a != to
            ==> #[trigger] bal_amount(m2, a, tok) == bal_amount(m, a, tok),
    ensures
        token_total(m2, tok, addrs) == token_total(m, tok, addrs)
            + (if addrs.contains(from) { -d } else { 0 })
            + (if addrs.contains(to) { d } else { 0 }),
    decreases addrs.len(),
{
    if addrs.len() > 0 {
        let rest = addrs.drop_last();
        let last = addrs.last();
        assert(distinct_addrs(rest)) by {
            assert(forall|i: int| 0 <= i < rest.len() ==> rest[i] == addrs[i]);
        }
        lemma_total_diff(m, m2, tok, rest, from, to, d);
        // a last occurrence cannot recur earlier in a distinct list
        if last == from {
            assert(!rest.contains(from)) by {
                if rest.contains(from) {
                    let i = choose|i: int| 0 <= i < rest.len() && rest[i] == from;
                    assert(addrs[i] == from);
                    assert(addrs[addrs.len() - 1] == from);
                }
            }
        }
        if last == to {
            assert(!rest.contains(to)) by {
                if rest.contains(to) {
                    let i = choose|i: int| 0 <= i < rest.len() && rest[i] == to;
                    assert(addrs[i] == to);
                    assert(addrs[addrs.len() - 1] == to);
                }
            }
        }
        assert(addrs.contains(last)) by {
            assert(addrs[addrs.len() - 1] == last);
        }
        assert forall|x: Seq<char>| rest.contains(x) implies addrs.contains(x) by {
            let i = choose|i: int| 0 <= i < rest.len() && rest[i] == x;
            assert(addrs[i] == x);
        }
        if addrs.contains(from) && !rest.contains(from) && last != from {
            let i = choose|i: int| 0 <= i < addrs.len() && addrs[i] == from;
            assert(i < addrs.len() - 1);
            assert(rest[i] == from);
        }
        if addrs.contains(to) && !rest.contains(to) && last != to {
            let i = choose|i: int| 0 <= i < addrs.len() && addrs[i] == to;
            assert(i < addrs.len() - 1);
            assert(rest[i] == to);
        }
    }
}

/// Totals agree when the two stores agree pointwise on every address.
proof fn lemma_total_same(m: Map<Seq<char>, Seq<u8>>, m2: Map<Seq<char>, Seq<u8>>, tok: Seq<char>, addrs: Seq<Seq<char>>)
    requires
        forall|a: Seq<char>| #[trigger] bal_amount(m2, a, tok) == bal_amount(m, a, tok),
    ensures
        token_total(m2, tok, addrs) == token_total(m, tok, addrs),
    decreases addrs.len(),
{
    if addrs.len() > 0 {
        lemma_total_same(m, m2, tok, addrs.drop_last());
        assert(bal_amount(m2, addrs.last(), tok) == bal_amount(m, addrs.last(), tok));
    }
}

/// Conservation of supply: a legal transfer never changes the total
/// balance a token holds over any duplicate-free list of addresses
/// that includes the sender and the recipient. Every other address's
/// record is untouched, so the debit and the credit cancel.
pub proof fn lemma_transfer_preserves_total(m: Map<Seq<char>, Seq<u8>>, from: Seq<char>, to: Seq<char>, tok: Seq<char>, amount: u64, now: i64, addrs: Seq<Seq<char>>)
    requires
        transfer_ok(m, from, to, tok, amount, now),
        small_balance(from, tok),
        small_balance(to, tok),
        distinct_addrs(addrs),
        addrs.contains(from),
        addrs.contains(to),
    ensures
        token_total(transfer_model(m, from, to, tok, amount, now), tok, addrs)
            == token_total(m, tok, addrs),
{
    let fb = stored_balance(m, from, tok)->0;
    let m1 = debited(m, from, tok, amount, now);
    let m2 = transfer_model(m, from, to, tok, amount, now);
    let kf = balance_key(from, tok);
    let kt = balance_key(to, tok);
    let fbv = BalanceV { address: from, token: tok, amount: (fb.amount - amount) as u64, updated_at: now };
    lemma_small_bounded(from, tok, (fb.amount - amount) as u64, now);
    lemma_stored_balance_insert(m, from, tok, fbv);
    // after the debit, the sender holds the reduced amount
    assert(bal_amount(m1, from, tok) == fb.amount - amount);
    // every other key is untouched by the debit
    assert forall|a: Seq<char>| a != from
        implies #[trigger] bal_amount(m1, a, tok) == bal_amount(m, a, tok) by {
        if balance_key(a, tok) == kf {
            lemma_balance_key_inj(a, from, tok);
        }
        lemma_stored_balance_congruent(m1, m, a, tok);
    }
    let tb: int = match stored_balance(m1, to, tok) {
        Some(b) => b.amount as int,
        None => 0,
    };
    let tbv = BalanceV { address: to, token: tok, amount: (tb + amount) as u64, updated_at: now };
    assert(0 <= tb + amount <= u64::MAX);
    lemma_small_bounded(to, tok, (tb + amount) as u64, now);
    lemma_stored_balance_insert(m1, to, tok, tbv);
    assert(bal_amount(m2, to, tok) == tb + amount);
    assert forall|a: Seq<char>| a != to
        implies #[trigger] bal_amount(m2, a, tok) == bal_amount(m1, a, tok) by {
        if balance_key(a, tok) == kt {
            lemma_balance_key_inj(a, to, tok);
        }
        lemma_stored_balance_congruent(m2, m1, a, tok);
    }
    if from == to {
        // a self-transfer reads back the debited record and restores it
        assert(tb == fb.amount - amount);
        assert forall|a: Seq<char>| #[trigger] bal_amount(m2, a, tok) == bal_amount(m, a, tok) by {
            if a == to {
                assert(bal_amount(m2, a, tok) == tb + amount);
                assert(bal_amount(m, a, tok) == fb.amount);
            } else {
                assert(bal_amount(m2, a, tok) == bal_amount(m1, a, tok));
                assert(bal_amount(m1, a, tok) == bal_amount(m, a, tok));
            }
        }
        lemma_total_same(m, m2, tok, addrs);
    } else {
        assert(bal_amount(m2, from, tok) == bal_amount(m1, from, tok));
        assert(bal_amount(m1, to, tok) == bal_amount(m, to, tok));
        assert(bal_amount(m2, from, tok) == bal_amount(m, from, tok) - amount);
        assert(bal_amount(m2, to, tok) == bal_amount(m, to, tok) + amount);
        assert forall|a: Seq<char>| a != from && a != to
            implies #[trigger] bal_amount(m2, a, tok) == bal_amount(m, a, tok) by {
            assert(bal_amount(m2, a, tok) == bal_amount(m1, a, tok));
            assert(bal_amount(m1, a, tok) == bal_amount(m, a, tok));
        }
        lemma_total_diff(m, m2, tok, addrs, from, to, amount as int);
    }
}

} // verus!
