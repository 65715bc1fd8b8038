//! Core data model of the ledger: addresses, balances and anti-rug
//! policy settings, with their invariants stated as specifications.

use vstd::prelude::*;
use vstd::arithmetic::mul::lemma_mul_inequality;
use vstd::arithmetic::div_mod::{lemma_div_is_ordered, lemma_div_by_multiple};
use crate::error::MemeChainError;

verus! {

/// The prefix every valid address starts with.
pub open spec fn addr_prefix() -> Seq<char> {
    "memechain1"@
}

/// Exactly the address-validity rule: the required prefix and the
/// required fixed total length (the prefix plus thirty-two characters,
/// the shape that derived addresses take).
pub open spec fn addr_valid(s: Seq<char>) -> bool {
    s.len() == 42 && addr_prefix().is_prefix_of(s)
}

/// Blockchain address type.
#[derive(Debug)]
pub struct Address {
    s: String,
}

impl View for Address {
    type V = Seq<char>;

    closed spec fn view(&self) -> Seq<char> {
        self.s@
    }
}

impl Clone for Address {
    fn clone(&self) -> (r: Self)
        ensures
            r@ == self@,
    {
        Address { s: self.s.clone() }
    }
}

impl PartialEq for Address {
    fn eq(&self, other: &Self) -> (r: bool) {
        self.s == other.s
    }
}

impl Eq for Address {
}

impl vstd::std_specs::cmp::PartialEqSpecImpl for Address {
    open spec fn obeys_eq_spec() -> bool {
        true
    }

    open spec fn eq_spec(&self, other: &Self) -> bool {
        self@ == other@
    }
}

impl Address {
    /// Create a new address.
    pub fn new(addr: String) -> (r: Self)
        ensures
            r@ == addr@,
    {
        Address { s: addr }
    }

    /// Get the address string.
    pub fn as_str(&self) -> (r: &str)
        ensures
            r@ == self@,
    {
        self.s.as_str()
    }

    /// Validate the address format: it must start with the required
    /// prefix and have the required fixed total length.
    pub fn is_valid(&self) -> (r: bool)
        ensures
            r == addr_valid(self@),
    {
        proof {
            reveal_strlit("memechain1");
        }
        let st = self.s.as_str();
        let n = st.unicode_len();
        if n != 42 {
            return false;
        }
        let prefix: &str = "memechain1";
        let mut i: usize = 0;
        while i < 10
            invariant
                0 <= i <= 10,
                n == self@.len() == 42,
                st@ == self@,
                prefix@ == addr_prefix(),
                addr_prefix().len() == 10,
                forall|j: int| 0 <= j < i ==> self@[j] == addr_prefix()[j],
            decreases 10 - i,
        {
            if st.get_char(i) != prefix.get_char(i) {
                assert(!addr_prefix().is_prefix_of(self@));
                return false;
            }
            i += 1;
        }
        assert(addr_prefix().is_prefix_of(self@)) by {
            assert(addr_prefix() =~= self@.subrange(0, 10));
        }
        true
    }
}

/// Anti-rug protection settings: a per-token policy limiting wallet
/// concentration and taxing trades.
#[derive(Debug, Clone, Copy)]
pub struct AntiRugSettings {
    /// Maximum wallet percentage.
    pub max_wallet_percentage: u8,
    /// Buy tax percentage.
    pub buy_tax_percentage: u8,
    /// Sell tax percentage.
    pub sell_tax_percentage: u8,
    /// Liquidity locked percentage.
    pub liquidity_locked_percentage: u8,
    /// Lock duration in blocks.
    pub lock_duration_blocks: u64,
    /// Lock start block.
    pub lock_start_block: Option<u64>,
}

impl AntiRugSettings {
    /// Well-formedness: all percentages lie in [0, 100].
    pub open spec fn wf(&self) -> bool {
        &&& self.max_wallet_percentage <= 100
        &&& self.buy_tax_percentage <= 100
        &&& self.sell_tax_percentage <= 100
        &&& self.liquidity_locked_percentage <= 100
    }

    /// Default anti-rug settings.
    pub fn default() -> (r: Self)
        ensures
            r.max_wallet_percentage == 5,
            r.buy_tax_percentage == 2,
            r.sell_tax_percentage == 3,
            r.liquidity_locked_percentage == 80,
            r.lock_duration_blocks == 1000,
            r.lock_start_block is None,
            r.wf(),
    {
        AntiRugSettings {
            max_wallet_percentage: 5,
            buy_tax_percentage: 2,
            sell_tax_percentage: 3,
            liquidity_locked_percentage: 80,
            lock_duration_blocks: 1000,
            lock_start_block: None,
        }
    }

    /// The liquidity-lock window is active at `current_block` when a lock
    /// start is set and the block lies before start + duration.
    pub open spec fn spec_locked(&self, current_block: u64) -> bool {
        match self.lock_start_block {
            Some(start) => current_block < start + self.lock_duration_blocks,
            None => false,
        }
    }

    /// Check whether liquidity is locked at the given block height.
    pub fn is_liquidity_locked(&self, current_block: u64) -> (r: bool)
        ensures
            r == self.spec_locked(current_block),
    {
        match self.lock_start_block {
            Some(start) => (current_block as u128) < (start as u128) + (self.lock_duration_blocks as u128),
            None => false,
        }
    }

    /// Tax for a buy: the floor of amount x buy-tax-percent / 100.
    pub open spec fn spec_buy_tax(&self, amount: u64) -> int {
        (amount * self.buy_tax_percentage) / 100
    }

    /// Tax for a sell: the floor of amount x sell-tax-percent / 100.
    pub open spec fn spec_sell_tax(&self, amount: u64) -> int {
        (amount * self.sell_tax_percentage) / 100
    }

    /// Calculate the buy tax.
    pub fn calculate_buy_tax(&self, amount: u64) -> (r: u64)
        requires
            self.wf(),
        ensures
            r == self.spec_buy_tax(amount),
            r <= amount,
    {
        proof {
            lemma_tax_bound(amount, self.buy_tax_percentage);
        }
        ((amount as u128) * (self.buy_tax_percentage as u128) / 100) as u64
    }

    /// Calculate the sell tax.
    pub fn calculate_sell_tax(&self, amount: u64) -> (r: u64)
        requires
            self.wf(),
        ensures
            r == self.spec_sell_tax(amount),
            r <= amount,
    {
        proof {
            lemma_tax_bound(amount, self.sell_tax_percentage);
        }
        ((amount as u128) * (self.sell_tax_percentage as u128) / 100) as u64
    }

    /// Whether a credit would push a wallet above the maximum share of
    /// the total supply that the policy allows.
    pub open spec fn spec_exceeds_max_wallet(
        &self,
        current_balance: u64,
        transfer_amount: u64,
        total_supply: u64,
    ) -> bool {
        current_balance + transfer_amount > (total_supply * self.max_wallet_percentage) / 100
    }

    /// Check if a transfer would exceed the max wallet limit.
    pub fn exceeds_max_wallet(
        &self,
        current_balance: u64,
        transfer_amount: u64,
        total_supply: u64,
    ) -> (r: bool)
        requires
            self.wf(),
        ensures
            r == self.spec_exceeds_max_wallet(current_balance, transfer_amount, total_supply),
    {
        proof {
            lemma_tax_bound(total_supply, self.max_wallet_percentage);
        }
        let max_wallet: u128 = (total_supply as u128) * (self.max_wallet_percentage as u128) / 100;
        (current_balance as u128) + (transfer_amount as u128) > max_wallet
    }
}

/// The floor of amount x pct / 100 never exceeds the amount when the
/// percentage is at most 100.
proof fn lemma_tax_bound(amount: u64, pct: u8)
    requires
        pct <= 100,
    ensures
        0 <= (amount * pct) / 100 <= amount,
{
    lemma_mul_inequality(pct as int, 100, amount as int);
    assert(amount * pct == pct * amount) by (nonlinear_arith);
    assert(amount * 100 == 100 * amount) by (nonlinear_arith);
    lemma_div_is_ordered(amount * pct, amount * 100, 100);
    lemma_div_by_multiple(amount as int, 100);
    assert((amount * pct) / 100 >= 0) by (nonlinear_arith);
}

/// Account balance for one address and one token symbol.
#[derive(Debug)]
pub struct Balance {
    /// Account address.
    pub address: Address,
    /// Token symbol.
    pub token: String,
    /// Balance amount; never negative by type, and debits are refused
    /// beyond the current amount.
    pub amount: u64,
    /// Updated timestamp.
    pub updated_at: i64,
}

/// Mathematical view of a balance record.
pub ghost struct BalanceV {
    pub address: Seq<char>,
    pub token: Seq<char>,
    pub amount: u64,
    pub updated_at: i64,
}

impl View for Balance {
    type V = BalanceV;

    open spec fn view(&self) -> BalanceV {
        BalanceV {
            address: self.address@,
            token: self.token@,
            amount: self.amount,
            updated_at: self.updated_at,
        }
    }
}

impl Clone for Balance {
    fn clone(&self) -> (r: Self)
        ensures
            r.address@ == self.address@,
            r.token@ == self.token@,
            r.amount == self.amount,
            r.updated_at == self.updated_at,
    {
        Balance {
            address: self.address.clone(),
            token: self.token.clone(),
            amount: self.amount,
            updated_at: self.updated_at,
        }
    }
}

impl Balance {
    /// Create a new balance record.
    pub fn new(address: Address, token: String, amount: u64, now: i64) -> (r: Self)
        ensures
            r.address@ == address@,
            r.token@ == token@,
            r.amount == amount,
            r.updated_at == now,
    {
        Balance { address, token, amount, updated_at: now }
    }

    /// Credit the balance.
    pub fn add(&mut self, amount: u64, now: i64)
        requires
            old(self).amount + amount <= u64::MAX,
        ensures
            final(self).amount == old(self).amount + amount,
            final(self).updated_at == now,
            final(self).address@ == old(self).address@,
            final(self).token@ == old(self).token@,
    {
        self.amount = self.amount + amount;
        self.updated_at = now;
    }

    /// Debit the balance. Fails with an insufficient-balance error
    /// exactly when the debit exceeds the current amount; on success the
    /// new amount is the old amount minus the debit and the update
    /// timestamp is stamped.
    pub fn subtract(&mut self, amount: u64, now: i64) -> (r: Result<(), MemeChainError>)
        ensures
            r is Err <==> amount > old(self).amount,
            r matches Err(e) ==> e is InsufficientBalance && *final(self) == *old(self),
            r is Ok ==> {
                &&& final(self).amount == old(self).amount - amount
                &&& final(self).updated_at == now
                &&& final(self).address@ == old(self).address@
                &&& final(self).token@ == old(self).token@
            },
    {
        if self.amount < amount {
            return Err(MemeChainError::InsufficientBalance(String::from_str("insufficient balance")));
        }
        self.amount = self.amount - amount;
        self.updated_at = now;
        Ok(())
    }
}


/// The keyed payload carried by transactions and results: each field an
/// optional value under the key the wire format uses.
#[derive(Debug)]
pub struct Payload {
    pub name: Option<String>,
    pub symbol: Option<String>,
    pub supply: Option<u64>,
    pub creator: Option<String>,
    pub token: Option<String>,
    pub amount: Option<u64>,
    pub tax: Option<u64>,
    pub from: Option<String>,
    pub to: Option<String>,
    pub buyer: Option<String>,
    pub seller: Option<String>,
    pub duration_blocks: Option<u64>,
    pub lock_start_block: Option<u64>,
    pub lock_duration_blocks: Option<u64>,
    pub locked_by: Option<String>,
    pub collection: Option<String>,
    pub collection_id: Option<String>,
    pub nft_id: Option<String>,
    pub owner: Option<String>,
    pub burned_by: Option<String>,
    pub updated_by: Option<String>,
    pub metadata: Option<String>,
    pub description: Option<String>,
    pub address: Option<String>,
    pub is_valid: Option<bool>,
    pub data: Option<String>,
    pub hash: Option<String>,
    pub public_key: Option<String>,
    pub private_key: Option<String>,
    pub anti_rug: Option<AntiRugSettings>,
}

/// Mathematical view of a payload.
pub ghost struct PayloadV {
    pub name: Option<Seq<char>>,
    pub symbol: Option<Seq<char>>,
    pub supply: Option<u64>,
    pub creator: Option<Seq<char>>,
    pub token: Option<Seq<char>>,
    pub amount: Option<u64>,
    pub tax: Option<u64>,
    pub from: Option<Seq<char>>,
    pub to: Option<Seq<char>>,
    pub buyer: Option<Seq<char>>,
    pub seller: Option<Seq<char>>,
    pub duration_blocks: Option<u64>,
    pub lock_start_block: Option<u64>,
    pub lock_duration_blocks: Option<u64>,
    pub locked_by: Option<Seq<char>>,
    pub collection: Option<Seq<char>>,
    pub collection_id: Option<Seq<char>>,
    pub nft_id: Option<Seq<char>>,
    pub owner: Option<Seq<char>>,
    pub burned_by: Option<Seq<char>>,
    pub updated_by: Option<Seq<char>>,
    pub metadata: Option<Seq<char>>,
    pub description: Option<Seq<char>>,
    pub address: Option<Seq<char>>,
    pub is_valid: Option<bool>,
    pub data: Option<Seq<char>>,
    pub hash: Option<Seq<char>>,
    pub public_key: Option<Seq<char>>,
    pub private_key: Option<Seq<char>>,
    pub anti_rug: Option<AntiRugSettings>,
}

/// The view of an optional string.
pub open spec fn vopt(o: Option<String>) -> Option<Seq<char>> {
    match o {
        None => None,
        Some(s) => Some(s@),
    }
}

impl View for Payload {
    type V = PayloadV;

    open spec fn view(&self) -> PayloadV {
        PayloadV {
            name: vopt(self.name),
            symbol: vopt(self.symbol),
            supply: self.supply,
            creator: vopt(self.creator),
            token: vopt(self.token),
            amount: self.amount,
            tax: self.tax,
            from: vopt(self.from),
            to: vopt(self.to),
            buyer: vopt(self.buyer),
            seller: vopt(self.seller),
            duration_blocks: self.duration_blocks,
            lock_start_block: self.lock_start_block,
            lock_duration_blocks: self.lock_duration_blocks,
            locked_by: vopt(self.locked_by),
            collection: vopt(self.collection),
            collection_id: vopt(self.collection_id),
            nft_id: vopt(self.nft_id),
            owner: vopt(self.owner),
            burned_by: vopt(self.burned_by),
            updated_by: vopt(self.updated_by),
            metadata: vopt(self.metadata),
            description: vopt(self.description),
            address: vopt(self.address),
            is_valid: self.is_valid,
            data: vopt(self.data),
            hash: vopt(self.hash),
            public_key: vopt(self.public_key),
            private_key: vopt(self.private_key),
            anti_rug: self.anti_rug,
        }
    }
}

impl PayloadV {
    /// The payload with every field absent.
    pub open spec fn empty() -> PayloadV {
        PayloadV {
            name: None, symbol: None, supply: None, creator: None,
            token: None, amount: None, tax: None, from: None, to: None,
            buyer: None, seller: None, duration_blocks: None,
            lock_start_block: None, lock_duration_blocks: None,
            locked_by: None, collection: None, collection_id: None,
            nft_id: None, owner: None, burned_by: None, updated_by: None,
            metadata: None, description: None, address: None,
            is_valid: None, data: None, hash: None, public_key: None,
            private_key: None, anti_rug: None,
        }
    }
}

/// Clone an optional string, preserving its view.
pub fn clone_opt_string(o: &Option<String>) -> (r: Option<String>)
    ensures
        vopt(r) == vopt(*o),
{
    match o {
        None => None,
        Some(s) => Some(s.clone()),
    }
}

impl Payload {
    /// The payload with every field absent.
    pub fn empty() -> (r: Self)
        ensures
            r@ == PayloadV::empty(),
    {
        Payload {
            name: None, symbol: None, supply: None, creator: None,
            token: None, amount: None, tax: None, from: None, to: None,
            buyer: None, seller: None, duration_blocks: None,
            lock_start_block: None, lock_duration_blocks: None,
            locked_by: None, collection: None, collection_id: None,
            nft_id: None, owner: None, burned_by: None, updated_by: None,
            metadata: None, description: None, address: None,
            is_valid: None, data: None, hash: None, public_key: None,
            private_key: None, anti_rug: None,
        }
    }
}

impl Clone for Payload {
    fn clone(&self) -> (r: Self)
        ensures
            r@ == self@,
    {
        Payload {
            name: clone_opt_string(&self.name),
            symbol: clone_opt_string(&self.symbol),
            supply: self.supply,
            creator: clone_opt_string(&self.creator),
            token: clone_opt_string(&self.token),
            amount: self.amount,
            tax: self.tax,
            from: clone_opt_string(&self.from),
            to: clone_opt_string(&self.to),
            buyer: clone_opt_string(&self.buyer),
            seller: clone_opt_string(&self.seller),
            duration_blocks: self.duration_blocks,
            lock_start_block: self.lock_start_block,
            lock_duration_blocks: self.lock_duration_blocks,
            locked_by: clone_opt_string(&self.locked_by),
            collection: clone_opt_string(&self.collection),
            collection_id: clone_opt_string(&self.collection_id),
            nft_id: clone_opt_string(&self.nft_id),
            owner: clone_opt_string(&self.owner),
            burned_by: clone_opt_string(&self.burned_by),
            updated_by: clone_opt_string(&self.updated_by),
            metadata: clone_opt_string(&self.metadata),
            description: clone_opt_string(&self.description),
            address: clone_opt_string(&self.address),
            is_valid: self.is_valid,
            data: clone_opt_string(&self.data),
            hash: clone_opt_string(&self.hash),
            public_key: clone_opt_string(&self.public_key),
            private_key: clone_opt_string(&self.private_key),
            anti_rug: self.anti_rug,
        }
    }
}

/// A transaction envelope: routed by module and action, carrying a
/// keyed payload.
#[derive(Debug)]
pub struct Transaction {
    /// Module that handles this transaction.
    pub module: String,
    /// Action to perform.
    pub action: String,
    /// Sender address.
    pub from: Address,
    /// Recipient address (optional).
    pub to: Option<Address>,
    /// Transaction data.
    pub data: Payload,
    /// Transaction timestamp.
    pub timestamp: i64,
    /// Transaction signature.
    pub signature: String,
}

/// Mathematical view of a transaction.
pub ghost struct TransactionV {
    pub module: Seq<char>,
    pub action: Seq<char>,
    pub from: Seq<char>,
    pub to: Option<Seq<char>>,
    pub data: PayloadV,
    pub timestamp: i64,
    pub signature: Seq<char>,
}

/// The view of an optional address.
pub open spec fn vopt_addr(o: Option<Address>) -> Option<Seq<char>> {
    match o {
        None => None,
        Some(a) => Some(a@),
    }
}

impl View for Transaction {
    type V = TransactionV;

    open spec fn view(&self) -> TransactionV {
        TransactionV {
            module: self.module@,
            action: self.action@,
            from: self.from@,
            to: vopt_addr(self.to),
            data: self.data@,
            timestamp: self.timestamp,
            signature: self.signature@,
        }
    }
}

/// Clone an optional address, preserving its view.
pub fn clone_opt_addr(o: &Option<Address>) -> (r: Option<Address>)
    ensures
        vopt_addr(r) == vopt_addr(*o),
{
    match o {
        None => None,
        Some(a) => Some(a.clone()),
    }
}

impl Clone for Transaction {
    fn clone(&self) -> (r: Self)
        ensures
            r@ == self@,
    {
        Transaction {
            module: self.module.clone(),
            action: self.action.clone(),
            from: self.from.clone(),
            to: clone_opt_addr(&self.to),
            data: self.data.clone(),
            timestamp: self.timestamp,
            signature: self.signature.clone(),
        }
    }
}

impl Transaction {
    /// Create a new, unsigned transaction stamped with the given time.
    pub fn new(
        module: String,
        action: String,
        from: Address,
        to: Option<Address>,
        data: Payload,
        now: i64,
    ) -> (r: Self)
        ensures
            r@.module == module@,
            r@.action == action@,
            r@.from == from@,
            r@.to == vopt_addr(to),
            r@.data == data@,
            r@.timestamp == now,
            r@.signature == Seq::<char>::empty(),
    {
        Transaction {
            module,
            action,
            from,
            to,
            data,
            timestamp: now,
            signature: String::new(),
        }
    }

    /// Sign the transaction with a placeholder scheme: the signature is
    /// a fixed tag followed by the key.
    pub fn sign(&mut self, private_key: &str) -> (r: Result<(), MemeChainError>)
        ensures
            r is Ok,
            final(self).signature@ == "signed_"@ + private_key@,
            final(self).module == old(self).module,
            final(self).action == old(self).action,
            final(self).from == old(self).from,
            final(self).to == old(self).to,
            final(self).data == old(self).data,
            final(self).timestamp == old(self).timestamp,
    {
        self.signature = String::from_str("signed_").concat(private_key);
        Ok(())
    }
}

/// The outcome of one transaction: success or an error message, with
/// optional result data. Success implies the error is absent.
#[derive(Debug)]
pub struct TransactionResult {
    /// Whether the transaction was successful.
    pub success: bool,
    /// Error message if failed.
    pub error: Option<String>,
    /// Result data.
    pub data: Option<Payload>,
}

/// Mathematical view of a transaction result.
pub ghost struct TransactionResultV {
    pub success: bool,
    pub error: Option<Seq<char>>,
    pub data: Option<PayloadV>,
}

/// The view of an optional payload.
pub open spec fn vopt_payload(o: Option<Payload>) -> Option<PayloadV> {
    match o {
        None => None,
        Some(p) => Some(p@),
    }
}

impl View for TransactionResult {
    type V = TransactionResultV;

    open spec fn view(&self) -> TransactionResultV {
        TransactionResultV {
            success: self.success,
            error: vopt(self.error),
            data: vopt_payload(self.data),
        }
    }
}

impl Clone for TransactionResult {
    fn clone(&self) -> (r: Self)
        ensures
            r@ == self@,
    {
        TransactionResult {
            success: self.success,
            error: clone_opt_string(&self.error),
            data: match &self.data {
                None => None,
                Some(p) => Some(p.clone()),
            },
        }
    }
}

impl TransactionResult {
    /// Success implies no error message.
    pub open spec fn wf(&self) -> bool {
        self.success ==> self.error is None
    }

    /// Create a successful result.
    pub fn success(data: Option<Payload>) -> (r: Self)
        ensures
            r.success == true,
            r.error is None,
            r@.data == vopt_payload(data),
            r.wf(),
    {
        TransactionResult { success: true, error: None, data }
    }

    /// Create a failed result.
    pub fn failure(error: String) -> (r: Self)
        ensures
            r.success == false,
            r@.error == Some(error@),
            r.data is None,
            r.wf(),
    {
        TransactionResult { success: false, error: Some(error), data: None }
    }
}

/// A block: a height-ordered batch of transactions with their
/// index-aligned results.
#[derive(Debug)]
pub struct Block {
    /// Block height.
    pub height: u64,
    /// Block timestamp.
    pub timestamp: i64,
    /// Transactions in this block.
    pub transactions: Vec<Transaction>,
    /// Transaction results, index-aligned with the transactions.
    pub results: Vec<TransactionResult>,
    /// Block hash.
    pub hash: String,
    /// Previous block hash.
    pub previous_hash: String,
}

/// Mathematical view of a block.
pub ghost struct BlockV {
    pub height: u64,
    pub timestamp: i64,
    pub transactions: Seq<TransactionV>,
    pub results: Seq<TransactionResultV>,
    pub hash: Seq<char>,
    pub previous_hash: Seq<char>,
}

impl View for Block {
    type V = BlockV;

    open spec fn view(&self) -> BlockV {
        BlockV {
            height: self.height,
            timestamp: self.timestamp,
            transactions: Seq::new(self.transactions@.len(), |i: int| self.transactions@[i]@),
            results: Seq::new(self.results@.len(), |i: int| self.results@[i]@),
            hash: self.hash@,
            previous_hash: self.previous_hash@,
        }
    }
}

impl Block {
    /// Create a new block stamped with the given time; the hash fields
    /// start empty.
    pub fn new(
        height: u64,
        transactions: Vec<Transaction>,
        results: Vec<TransactionResult>,
        previous_hash: String,
        now: i64,
    ) -> (r: Self)
        ensures
            r.height == height,
            r.timestamp == now,
            r.transactions@ == transactions@,
            r.results@ == results@,
            r.hash@ == Seq::<char>::empty(),
            r.previous_hash@ == previous_hash@,
    {
        Block {
            height,
            timestamp: now,
            transactions,
            results,
            hash: String::new(),
            previous_hash,
        }
    }
}

/// An NFT collection.
#[derive(Debug)]
pub struct Collection {
    /// Collection ID.
    pub id: String,
    /// Collection name.
    pub name: String,
    /// Creator address.
    pub creator: Address,
    /// Description.
    pub description: String,
    /// Created timestamp.
    pub created_at: i64,
    /// Updated timestamp.
    pub updated_at: i64,
}

/// Mathematical view of a collection.
pub ghost struct CollectionV {
    pub id: Seq<char>,
    pub name: Seq<char>,
    pub creator: Seq<char>,
    pub description: Seq<char>,
    pub created_at: i64,
    pub updated_at: i64,
}

impl View for Collection {
    type V = CollectionV;

    open spec fn view(&self) -> CollectionV {
        CollectionV {
            id: self.id@,
            name: self.name@,
            creator: self.creator@,
            description: self.description@,
            created_at: self.created_at,
            updated_at: self.updated_at,
        }
    }
}

impl Clone for Collection {
    fn clone(&self) -> (r: Self)
        ensures
            r@ == self@,
    {
        Collection {
            id: self.id.clone(),
            name: self.name.clone(),
            creator: self.creator.clone(),
            description: self.description.clone(),
            created_at: self.created_at,
            updated_at: self.updated_at,
        }
    }
}

impl Collection {
    /// Create a new collection; both timestamps are stamped with the
    /// given time.
    pub fn new(id: String, name: String, creator: Address, description: String, now: i64) -> (r: Self)
        ensures
            r@ == (CollectionV {
                id: id@,
                name: name@,
                creator: creator@,
                description: description@,
                created_at: now,
                updated_at: now,
            }),
    {
        Collection { id, name, creator, description, created_at: now, updated_at: now }
    }
}

/// An NFT: a uniquely identified item inside a collection, owned by an
/// address. Only its owner may mutate or burn it.
#[derive(Debug)]
pub struct Nft {
    /// NFT ID.
    pub id: String,
    /// Collection ID.
    pub collection_id: String,
    /// NFT name.
    pub name: String,
    /// Owner address.
    pub owner: Address,
    /// Metadata, when any was supplied.
    pub metadata: Option<String>,
    /// Created timestamp.
    pub created_at: i64,
    /// Updated timestamp.
    pub updated_at: i64,
}

/// Mathematical view of an NFT.
pub ghost struct NftV {
    pub id: Seq<char>,
    pub collection_id: Seq<char>,
    pub name: Seq<char>,
    pub owner: Seq<char>,
    pub metadata: Option<Seq<char>>,
    pub created_at: i64,
    pub updated_at: i64,
}

impl View for Nft {
    type V = NftV;

    open spec fn view(&self) -> NftV {
        NftV {
            id: self.id@,
            collection_id: self.collection_id@,
            name: self.name@,
            owner: self.owner@,
            metadata: vopt(self.metadata),
            created_at: self.created_at,
            updated_at: self.updated_at,
        }
    }
}

impl Clone for Nft {
    fn clone(&self) -> (r: Self)
        ensures
            r@ == self@,
    {
        Nft {
            id: self.id.clone(),
            collection_id: self.collection_id.clone(),
            name: self.name.clone(),
            owner: self.owner.clone(),
            metadata: clone_opt_string(&self.metadata),
            created_at: self.created_at,
            updated_at: self.updated_at,
        }
    }
}

impl Nft {
    /// Create a new NFT; both timestamps are stamped with the given
    /// time.
    pub fn new(
        id: String,
        collection_id: String,
        name: String,
        owner: Address,
        metadata: Option<String>,
        now: i64,
    ) -> (r: Self)
        ensures
            r@ == (NftV {
                id: id@,
                collection_id: collection_id@,
                name: name@,
                owner: owner@,
                metadata: vopt(metadata),
                created_at: now,
                updated_at: now,
            }),
    {
        Nft { id, collection_id, name, owner, metadata, created_at: now, updated_at: now }
    }
}

/// A fungible token definition with its anti-rug policy.
#[derive(Debug)]
pub struct Token {
    /// Token symbol, unique among tokens.
    pub symbol: String,
    /// Token name.
    pub name: String,
    /// Total supply.
    pub total_supply: u64,
    /// Creator address; immutable after creation.
    pub creator: Address,
    /// Anti-rug settings.
    pub anti_rug: AntiRugSettings,
    /// Created timestamp.
    pub created_at: i64,
    /// Updated timestamp.
    pub updated_at: i64,
}

/// Mathematical view of a token.
pub ghost struct TokenV {
    pub symbol: Seq<char>,
    pub name: Seq<char>,
    pub total_supply: u64,
    pub creator: Seq<char>,
    pub anti_rug: AntiRugSettings,
    pub created_at: i64,
    pub updated_at: i64,
}

impl View for Token {
    type V = TokenV;

    open spec fn view(&self) -> TokenV {
        TokenV {
            symbol: self.symbol@,
            name: self.name@,
            total_supply: self.total_supply,
            creator: self.creator@,
            anti_rug: self.anti_rug,
            created_at: self.created_at,
            updated_at: self.updated_at,
        }
    }
}

impl Clone for Token {
    fn clone(&self) -> (r: Self)
        ensures
            r@ == self@,
    {
        Token {
            symbol: self.symbol.clone(),
            name: self.name.clone(),
            total_supply: self.total_supply,
            creator: self.creator.clone(),
            anti_rug: self.anti_rug,
            created_at: self.created_at,
            updated_at: self.updated_at,
        }
    }
}

impl Token {
    /// Create a new token; both timestamps are stamped with the given
    /// time.
    pub fn new(
        symbol: String,
        name: String,
        total_supply: u64,
        creator: Address,
        anti_rug: AntiRugSettings,
        now: i64,
    ) -> (r: Self)
        ensures
            r@ == (TokenV {
                symbol: symbol@,
                name: name@,
                total_supply: total_supply,
                creator: creator@,
                anti_rug: anti_rug,
                created_at: now,
                updated_at: now,
            }),
    {
        Token { symbol, name, total_supply, creator, anti_rug, created_at: now, updated_at: now }
    }
}

/// Network peer information.
#[derive(Debug)]
pub struct Peer {
    /// Peer ID.
    pub id: String,
    /// Peer address.
    pub address: String,
    /// Peer port.
    pub port: u16,
    /// Is persistent peer.
    pub persistent: bool,
    /// Last seen timestamp.
    pub last_seen: i64,
}

impl Peer {
    /// Create a new peer stamped with the given time.
    pub fn new(id: String, address: String, port: u16, persistent: bool, now: i64) -> (r: Self)
        ensures
            r.id@ == id@,
            r.address@ == address@,
            r.port == port,
            r.persistent == persistent,
            r.last_seen == now,
    {
        Peer { id, address, port, persistent, last_seen: now }
    }

    /// Update the last-seen timestamp.
    pub fn update_last_seen(&mut self, now: i64)
        ensures
            final(self).last_seen == now,
            final(self).id == old(self).id,
            final(self).address == old(self).address,
            final(self).port == old(self).port,
            final(self).persistent == old(self).persistent,
    {
        self.last_seen = now;
    }
}

} // verus!
