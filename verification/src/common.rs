//! Shared utilities: address and amount validation, decimal and hex
//! formatting, SHA-256 hashing and the placeholder signature helpers.

use vstd::prelude::*;
use vstd::arithmetic::div_mod::lemma_div_is_ordered;
use vstd::utf8::encode_utf8;
use crate::error::{MemeChainError, CommonError};
use crate::types::{Address, Payload, Transaction, TransactionResult, Block, addr_prefix};
use crate::codec::{enc_transaction, push_transaction};
use sha2::Digest;
use ed25519_dalek::Signer;
use ed25519_dalek::Verifier;

verus! {

// ---------------------------------------------------------------------
// Decimal digits
// ---------------------------------------------------------------------

/// The character for one decimal digit.
pub open spec fn digit_char(d: int) -> char {
    if d == 0 { '0' } else if d == 1 { '1' } else if d == 2 { '2' }
    else if d == 3 { '3' } else if d == 4 { '4' } else if d == 5 { '5' }
    else if d == 6 { '6' } else if d == 7 { '7' } else if d == 8 { '8' }
    else { '9' }
}

/// The decimal digit string of a non-negative number, without leading
/// zeros (a single zero for zero).
pub open spec fn dec_digits(n: int) -> Seq<char>
    decreases n,
{
    if n < 10 {
        seq![digit_char(n)]
    } else {
        dec_digits(n / 10) + seq![digit_char(n % 10)]
    }
}

/// The decimal digit string of a number, with a leading minus sign
/// when it is negative.
pub open spec fn dec_signed(n: int) -> Seq<char> {
    if n >= 0 {
        dec_digits(n)
    } else {
        seq!['-'] + dec_digits(-n)
    }
}

/// The digit string of `n` padded or truncated on the left to exactly
/// `width` digits.
pub open spec fn dec_pad(n: int, width: int) -> Seq<char>
    decreases width,
{
    if width <= 0 {
        Seq::empty()
    } else {
        dec_pad(n / 10, width - 1) + seq![digit_char(n % 10)]
    }
}

/// One decimal digit as a string slice.
fn digit_str(d: u64) -> (r: &'static str)
    requires
        d < 10,
    ensures
        r@ == seq![digit_char(d as int)],
{
    proof {
        reveal_strlit("0"); reveal_strlit("1"); reveal_strlit("2");
        reveal_strlit("3"); reveal_strlit("4"); reveal_strlit("5");
        reveal_strlit("6"); reveal_strlit("7"); reveal_strlit("8");
        reveal_strlit("9");
    }
    let r = match d {
        0 => "0", 1 => "1", 2 => "2", 3 => "3", 4 => "4",
        5 => "5", 6 => "6", 7 => "7", 8 => "8", _ => "9",
    };
    proof {
        assert(r@ =~= seq![digit_char(d as int)]);
    }
    r
}

/// Format a u64 in decimal.
pub fn u64_to_dec_string(n: u64) -> (r: String)
    ensures
        r@ == dec_digits(n as int),
    decreases n,
{
    if n < 10 {
        String::from_str(digit_str(n))
    } else {
        proof {
            lemma_div_is_ordered(10, n as int, 10);
        }
        let mut s = u64_to_dec_string(n / 10);
        s.append(digit_str(n % 10));
        s
    }
}

/// Format an i64 in decimal, with a minus sign when negative.
pub fn i64_to_dec_string(n: i64) -> (r: String)
    ensures
        r@ == dec_signed(n as int),
{
    if n >= 0 {
        u64_to_dec_string(n as u64)
    } else {
        proof {
            reveal_strlit("-");
        }
        let mag: u64 = (-(n as i128)) as u64;
        let s = String::from_str("-").concat(u64_to_dec_string(mag).as_str());
        proof {
            assert(s@ =~= dec_signed(n as int));
        }
        s
    }
}

/// Format a number left-padded with zeros to exactly `width` digits.
fn u64_to_dec_pad(n: u64, width: u8) -> (r: String)
    ensures
        r@ == dec_pad(n as int, width as int),
    decreases width,
{
    if width == 0 {
        String::new()
    } else {
        let mut s = u64_to_dec_pad(n / 10, width - 1);
        s.append(digit_str(n % 10));
        s
    }
}

// ---------------------------------------------------------------------
// Hex digits
// ---------------------------------------------------------------------

/// The character for one hex digit.
pub open spec fn hex_char(d: int) -> char {
    if d < 10 {
        digit_char(d)
    } else if d == 10 { 'a' } else if d == 11 { 'b' } else if d == 12 { 'c' }
    else if d == 13 { 'd' } else if d == 14 { 'e' } else { 'f' }
}

/// Lowercase hex of a byte string: two digits per byte, in order.
pub open spec fn hex_of(b: Seq<u8>) -> Seq<char>
    decreases b.len(),
{
    if b.len() == 0 {
        Seq::empty()
    } else {
        hex_of(b.drop_last()) + seq![hex_char(b.last() as int / 16), hex_char(b.last() as int % 16)]
    }
}

/// One hex digit as a string slice.
fn hex_digit_str(d: u8) -> (r: &'static str)
    requires
        d < 16,
    ensures
        r@ == seq![hex_char(d as int)],
{
    if d < 10 {
        digit_str(d as u64)
    } else {
        proof {
            reveal_strlit("a"); reveal_strlit("b"); reveal_strlit("c");
            reveal_strlit("d"); reveal_strlit("e"); reveal_strlit("f");
        }
        let r = match d {
            10 => "a", 11 => "b", 12 => "c", 13 => "d", 14 => "e", _ => "f",
        };
        proof {
            assert(r@ =~= seq![hex_char(d as int)]);
        }
        r
    }
}

/// Format a byte string as lowercase hex.
pub fn to_hex(bytes: &[u8]) -> (r: String)
    ensures
        r@ == hex_of(bytes@),
        r@.len() == 2 * bytes@.len(),
{
    let mut s = String::new();
    let mut i: usize = 0;
    proof {
        assert(bytes@.subrange(0, 0) =~= Seq::<u8>::empty());
    }
    while i < bytes.len()
        invariant
            0 <= i <= bytes@.len(),
            s@ == hex_of(bytes@.subrange(0, i as int)),
            s@.len() == 2 * i,
        decreases bytes@.len() - i,
    {
        let b = bytes[i];
        s.append(hex_digit_str(b / 16));
        s.append(hex_digit_str(b % 16));
        proof {
            let pre = bytes@.subrange(0, i as int + 1);
            assert(pre.drop_last() =~= bytes@.subrange(0, i as int));
            assert(pre.last() == bytes@[i as int]);
            assert(s@ =~= hex_of(pre));
        }
        i += 1;
    }
    proof {
        assert(bytes@.subrange(0, bytes@.len() as int) =~= bytes@);
    }
    s
}

// ---------------------------------------------------------------------
// Trusted cryptographic primitives
// ---------------------------------------------------------------------

/// The SHA-256 digest of a byte string; the digest is a function of
/// the bytes alone.
pub uninterp spec fn sha256_of(data: Seq<u8>) -> Seq<u8>;

/// Relies on sha2's Sha256: the digest depends on the input alone and
/// is 32 bytes long.
#[verifier::external_body]
fn sha256(data: &[u8]) -> (r: Vec<u8>)
    ensures
        r@ == sha256_of(data@),
        r@.len() == 32,
{
    sha2::Sha256::digest(data).to_vec()
}

/// Relies on ed25519_dalek's SigningKey::generate and verifying_key:
/// a fresh random keypair as two 32-byte strings (secret, public).
#[verifier::external_body]
fn ed25519_generate() -> (r: (Vec<u8>, Vec<u8>))
    ensures
        r.0@.len() == 32,
        r.1@.len() == 32,
{
    let mut rng = rand::rng();
    let sk = ed25519_dalek::SigningKey::generate(&mut rng);
    let pk = sk.verifying_key();
    (sk.to_bytes().to_vec(), pk.to_bytes().to_vec())
}

/// Relies on ed25519_dalek's SigningKey::from_bytes and Signer::sign:
/// fails exactly when the key is not 32 bytes; a signature is 64 bytes.
#[verifier::external_body]
fn ed25519_sign(message: &[u8], private_key: &[u8]) -> (r: Option<Vec<u8>>)
    ensures
        r is Some <==> private_key@.len() == 32,
        r matches Some(sig) ==> sig@.len() == 64,
{
    let bytes: [u8; 32] = match private_key.try_into() {
        Ok(b) => b,
        Err(_) => { return None; }
    };
    let sk = ed25519_dalek::SigningKey::from_bytes(&bytes);
    Some(sk.sign(message).to_bytes().to_vec())
}

/// The outcomes of an ed25519 verification attempt.
pub enum VerifyOutcome {
    Valid,
    Invalid,
    BadPublicKey,
    BadSignature,
}

/// Relies on ed25519_dalek's VerifyingKey::from_bytes and
/// Verifier::verify: the key must be 32 bytes and the signature 64.
#[verifier::external_body]
fn ed25519_verify(message: &[u8], signature: &[u8], public_key: &[u8]) -> (r: VerifyOutcome)
    ensures
        public_key@.len() != 32 ==> r is BadPublicKey,
        signature@.len() != 64 ==> r is BadPublicKey || r is BadSignature,
{
    let pk_bytes: [u8; 32] = match public_key.try_into() { Ok(b) => b, Err(_) => { return VerifyOutcome::BadPublicKey; } };
    let pk = match ed25519_dalek::VerifyingKey::from_bytes(&pk_bytes) { Ok(p) => p, Err(_) => { return VerifyOutcome::BadPublicKey; } };
    let sig_bytes: [u8; 64] = match signature.try_into() { Ok(b) => b, Err(_) => { return VerifyOutcome::BadSignature; } };
    let sig = ed25519_dalek::Signature::from_bytes(&sig_bytes);
    match pk.verify(message, &sig) {
        Ok(()) => VerifyOutcome::Valid,
        Err(_) => VerifyOutcome::Invalid,
    }
}

/// Relies on chrono's Utc::now: the current Unix time in seconds.
#[verifier::external_body]
fn now_timestamp() -> i64 {
    chrono::Utc::now().timestamp()
}

// ---------------------------------------------------------------------
// Powers of ten
// ---------------------------------------------------------------------

/// Ten to the `d`.
pub open spec fn pow10(d: int) -> int
    decreases d,
{
    if d <= 0 {
        1
    } else {
        10 * pow10(d - 1)
    }
}

proof fn lemma_pow10_bounds(d: int)
    requires
        0 <= d <= 19,
    ensures
        1 <= pow10(d) <= 10_000_000_000_000_000_000,
    decreases d,
{
    if d > 0 {
        lemma_pow10_bounds(d - 1);
        reveal_with_fuel(pow10, 21);
        assert(pow10(19) == 10_000_000_000_000_000_000);
        assert(pow10(d) <= pow10(19)) by {
            lemma_pow10_mono(d, 19);
        }
    }
}

proof fn lemma_pow10_mono(a: int, b: int)
    requires
        0 <= a <= b,
    ensures
        pow10(a) <= pow10(b),
        pow10(a) >= 1,
    decreases b,
{
    if a < b {
        lemma_pow10_mono(a, b - 1);
        assert(pow10(b) == 10 * pow10(b - 1));
    } else if a > 0 {
        lemma_pow10_mono(a - 1, a - 1);
    }
}

/// Compute ten to the `decimals` as a u64.
fn pow10_u64(decimals: u8) -> (r: u64)
    requires
        decimals <= 19,
    ensures
        r == pow10(decimals as int),
        r >= 1,
{
    let mut r: u64 = 1;
    let mut i: u8 = 0;
    while i < decimals
        invariant
            0 <= i <= decimals <= 19,
            r == pow10(i as int),
        decreases decimals - i,
    {
        proof {
            lemma_pow10_bounds(i as int + 1);
        }
        r = r * 10;
        i += 1;
    }
    proof {
        lemma_pow10_mono(0, decimals as int);
    }
    r
}

// ---------------------------------------------------------------------
// The common module
// ---------------------------------------------------------------------

/// Digit predicate and value of a digit string.
pub open spec fn is_digit(c: char) -> bool {
    48 <= c as u32 <= 57
}

/// Every character is a decimal digit.
pub open spec fn all_digits(s: Seq<char>) -> bool {
    forall|i: int| 0 <= i < s.len() ==> is_digit(#[trigger] s[i])
}

/// The value of a digit string, most significant first.
pub open spec fn digits_val(s: Seq<char>) -> int
    decreases s.len(),
{
    if s.len() == 0 {
        0
    } else {
        digits_val(s.drop_last()) * 10 + (s.last() as u32 - 48)
    }
}

/// When a common-module request succeeds: a known action carrying the
/// field it reads.
pub open spec fn common_action_ok(tx: crate::types::TransactionV) -> bool {
    ||| (tx.action == "validate_address"@ && tx.data.address is Some)
    ||| tx.action == "generate_keypair"@
    ||| (tx.action == "hash_data"@ && tx.data.data is Some)
}

/// Common utilities module for shared functionality.
#[derive(Debug)]
pub struct CommonModule {
}

impl CommonModule {
    /// Create a new common module.
    pub fn new() -> (r: Self) {
        CommonModule {}
    }

    /// Process common module transactions: address validation, keypair
    /// generation and hashing. No storage is involved, so success is
    /// an exact function of the request: a known action with its
    /// required field present.
    pub fn process_transaction(&self, tx: &Transaction) -> (r: Result<TransactionResult, MemeChainError>)
        ensures
            r matches Ok(res) ==> res.success && res.error is None,
            r is Ok <==> common_action_ok(tx@),
            tx@.action == "validate_address"@ ==> (r matches Ok(res) ==> ({
                &&& tx@.data.address matches Some(a)
                &&& res@.data matches Some(d)
                &&& d.address == Some(a)
                &&& d.is_valid == Some(crate::types::addr_valid(a))
            })),
            tx@.action == "hash_data"@ ==> (r matches Ok(res) ==> ({
                &&& tx@.data.data matches Some(input)
                &&& res@.data matches Some(d)
                &&& d.data == Some(input)
                &&& d.hash == Some(hex_of(sha256_of(encode_utf8(input))))
            })),
            tx@.action == "generate_keypair"@ ==> (r matches Ok(res) ==> ({
                &&& res@.data matches Some(d)
                &&& (d.public_key matches Some(pk) && pk.len() == 64)
                &&& (d.private_key matches Some(sk) && sk.len() == 64)
            })),
    {
        proof {
            reveal_strlit("validate_address");
            reveal_strlit("generate_keypair");
            reveal_strlit("hash_data");
            // the three action names are pairwise distinct
            assert("validate_address"@.len() == 16);
            assert("generate_keypair"@.len() == 16);
            assert("hash_data"@.len() == 9);
            assert("validate_address"@[0] == 'v' && "generate_keypair"@[0] == 'g');
        }
        if str_eq(tx.action.as_str(), "validate_address") {
            self.validate_address_tx(tx)
        } else if str_eq(tx.action.as_str(), "generate_keypair") {
            self.generate_keypair(tx)
        } else if str_eq(tx.action.as_str(), "hash_data") {
            self.hash_data(tx)
        } else {
            Err(CommonError::InvalidAddress(String::from_str("unknown action")).wrap())
        }
    }

    /// Validate an address' format, failing on malformed addresses.
    pub fn validate_address(&self, address: &Address) -> (r: Result<(), MemeChainError>)
        ensures
            r is Ok <==> crate::types::addr_valid(address@),
            r matches Err(e) ==> e matches MemeChainError::Module(m)
                && m matches crate::error::ModuleError::Common(c)
                && c is InvalidAddress,
    {
        if !address.is_valid() {
            return Err(CommonError::InvalidAddress(String::from_str("invalid address format")).wrap());
        }
        Ok(())
    }

    /// Validate a transaction signature: only presence is checked, no
    /// cryptographic verification is performed.
    pub fn validate_signature(&self, tx: &Transaction) -> (r: Result<(), MemeChainError>)
        ensures
            r is Ok <==> tx@.signature.len() > 0,
            r matches Err(e) ==> e matches MemeChainError::Module(m)
                && m matches crate::error::ModuleError::Common(c)
                && c is InvalidSignature,
    {
        if tx.signature.as_str().unicode_len() == 0 {
            return Err(CommonError::InvalidSignature(String::from_str("empty signature")).wrap());
        }
        Ok(())
    }

    /// Generate a fresh keypair; the result carries both keys in hex.
    fn generate_keypair(&self, _tx: &Transaction) -> (r: Result<TransactionResult, MemeChainError>)
        ensures
            r is Ok,
            r matches Ok(res) ==> res.success && res.error is None
                && (res@.data matches Some(d)
                    && (d.public_key matches Some(pk) && pk.len() == 64)
                    && (d.private_key matches Some(sk) && sk.len() == 64)),
    {
        let (sk, pk) = ed25519_generate();
        let mut data = Payload::empty();
        data.public_key = Some(to_hex(pk.as_slice()));
        data.private_key = Some(to_hex(sk.as_slice()));
        Ok(TransactionResult::success(Some(data)))
    }

    /// Hash the `data` field of the payload; fails when it is absent.
    fn hash_data(&self, tx: &Transaction) -> (r: Result<TransactionResult, MemeChainError>)
        ensures
            r is Ok <==> tx@.data.data is Some,
            r matches Ok(res) ==> res.success && res.error is None
                && (tx@.data.data matches Some(input)
                    && res@.data matches Some(d)
                    && d.data == Some(input)
                    && d.hash == Some(hex_of(sha256_of(encode_utf8(input))))),
    {
        let input = match &tx.data.data {
            None => {
                return Err(CommonError::HashCalculationFailed(String::from_str("missing data to hash")).wrap());
            }
            Some(s) => s.clone(),
        };
        let hash = self.calculate_hash(input.as_str().as_bytes());
        let mut data = Payload::empty();
        data.data = Some(input);
        data.hash = Some(hash);
        Ok(TransactionResult::success(Some(data)))
    }

    /// Report whether a payload's address field is a valid address.
    fn validate_address_tx(&self, tx: &Transaction) -> (r: Result<TransactionResult, MemeChainError>)
        ensures
            r is Ok <==> tx@.data.address is Some,
            r matches Ok(res) ==> res.success && res.error is None
                && (tx@.data.address matches Some(a)
                    && res@.data matches Some(d)
                    && d.address == Some(a)
                    && d.is_valid == Some(crate::types::addr_valid(a))),
    {
        let addr_str = match &tx.data.address {
            None => {
                return Err(CommonError::InvalidAddress(String::from_str("missing address")).wrap());
            }
            Some(s) => s.clone(),
        };
        let address = Address::new(addr_str.clone());
        let ok = address.is_valid();
        let mut data = Payload::empty();
        data.address = Some(addr_str);
        data.is_valid = Some(ok);
        Ok(TransactionResult::success(Some(data)))
    }

    /// SHA-256 of the data, as lowercase hex.
    pub fn calculate_hash(&self, data: &[u8]) -> (r: String)
        ensures
            r@ == hex_of(sha256_of(data@)),
            r@.len() == 64,
    {
        let digest = sha256(data);
        to_hex(digest.as_slice())
    }

    /// Verify an ed25519 signature; malformed keys or signatures fail
    /// with an error, a well-formed pair yields the verdict.
    pub fn verify_signature(&self, message: &[u8], signature: &[u8], public_key: &[u8]) -> (r: Result<bool, MemeChainError>)
        ensures
            public_key@.len() != 32 ==> r is Err,
    {
        match ed25519_verify(message, signature, public_key) {
            VerifyOutcome::Valid => Ok(true),
            VerifyOutcome::Invalid => Ok(false),
            VerifyOutcome::BadPublicKey => Err(CommonError::InvalidPublicKey(String::from_str("malformed public key")).wrap()),
            VerifyOutcome::BadSignature => Err(CommonError::InvalidSignature(String::from_str("malformed signature")).wrap()),
        }
    }

    /// Sign a message with an ed25519 private key; the signature comes
    /// back as hex. Fails exactly when the key is not 32 bytes.
    pub fn sign_data(&self, message: &[u8], private_key: &[u8]) -> (r: Result<String, MemeChainError>)
        ensures
            r is Ok <==> private_key@.len() == 32,
            r matches Ok(s) ==> s@.len() == 128,
    {
        match ed25519_sign(message, private_key) {
            None => Err(CommonError::InvalidPrivateKey(String::from_str("private key must be 32 bytes")).wrap()),
            Some(sig) => Ok(to_hex(sig.as_slice())),
        }
    }

    /// Derive an address from a public key: the fixed prefix followed
    /// by the first 32 hex characters of the key's SHA-256.
    pub fn generate_address(&self, public_key: &[u8]) -> (r: Result<Address, MemeChainError>)
        ensures
            r is Ok,
            r matches Ok(a) ==> a@ == addr_prefix() + hex_of(sha256_of(public_key@)).take(32)
                && crate::types::addr_valid(a@),
    {
        let hash = self.calculate_hash(public_key);
        let head = hash.as_str().substring_char(0, 32);
        let addr = String::from_str("memechain1").concat(head);
        proof {
            reveal_strlit("memechain1");
            assert(addr@ =~= addr_prefix() + hex_of(sha256_of(public_key@)).take(32));
        }
        Ok(Address::new(addr))
    }

    /// Encryption is not provided; this always fails.
    pub fn encrypt_data(&self, _data: &[u8], _key: &[u8]) -> (r: Result<Vec<u8>, MemeChainError>)
        ensures
            r is Err,
    {
        Err(CommonError::EncryptionFailed(String::from_str("encryption not implemented")).wrap())
    }

    /// Decryption is not provided; this always fails.
    pub fn decrypt_data(&self, _data: &[u8], _key: &[u8]) -> (r: Result<Vec<u8>, MemeChainError>)
        ensures
            r is Err,
    {
        Err(CommonError::DecryptionFailed(String::from_str("decryption not implemented")).wrap())
    }

    /// An amount is valid exactly when it is nonzero.
    pub fn validate_amount(&self, amount: u64) -> (r: Result<(), MemeChainError>)
        ensures
            r is Ok <==> amount != 0,
    {
        if amount == 0 {
            return Err(CommonError::InvalidAmount(String::from_str("amount cannot be zero")).wrap());
        }
        Ok(())
    }

    /// Format an amount with the given number of decimal places: the
    /// whole part, then a fractional part only when it is nonzero.
    pub fn format_amount(&self, amount: u64, decimals: u8) -> (r: String)
        requires
            decimals <= 19,
        ensures
            ({
                let div = pow10(decimals as int);
                let whole = amount as int / div;
                let frac = amount as int % div;
                if frac == 0 {
                    r@ == dec_digits(whole)
                } else {
                    r@ == dec_digits(whole) + seq!['.'] + dec_pad(frac, decimals as int)
                }
            }),
    {
        proof {
            lemma_pow10_bounds(decimals as int);
            reveal_strlit(".");
        }
        let divisor = pow10_u64(decimals);
        let whole = amount / divisor;
        let frac = amount % divisor;
        if frac == 0 {
            u64_to_dec_string(whole)
        } else {
            let mut s = u64_to_dec_string(whole);
            s.append(".");
            s.append(u64_to_dec_pad(frac, decimals).as_str());
            proof {
                assert(s@ =~= dec_digits(amount as int / pow10(decimals as int))
                    + seq!['.'] + dec_pad(amount as int % pow10(decimals as int), decimals as int));
            }
            s
        }
    }

    /// Parse an amount with the given number of decimal places. A
    /// plain digit string is scaled up; a single dot splits a whole
    /// part from a fractional part that is padded to the scale.
    /// Malformed text, too many decimal places, or an amount that does
    /// not fit yields an error.
    pub fn parse_amount(&self, amount_str: &str, decimals: u8) -> (r: Result<u64, MemeChainError>)
        requires
            decimals <= 19,
        ensures
            ({
                let s = amount_str@;
                let div = pow10(decimals as int);
                if !s.contains('.') {
                    &&& (r is Ok <==> s.len() > 0 && all_digits(s) && digits_val(s) * div <= u64::MAX)
                    &&& (r matches Ok(v) ==> v == digits_val(s) * div)
                } else {
                    let dot = s.index_of_first('.')->0;
                    let w = s.take(dot);
                    let f = s.skip(dot + 1);
                    if f.contains('.') {
                        r is Err
                    } else {
                        let scaled = digits_val(w) * div + digits_val(f) * pow10(decimals - f.len());
                        &&& (r is Ok <==> w.len() > 0 && all_digits(w) && all_digits(f)
                                && f.len() <= decimals && (decimals > 0)
                                && digits_val(w) * div <= u64::MAX
                                && scaled <= u64::MAX)
                        &&& (r matches Ok(v) ==> v == scaled)
                    }
                }
            }),
    {
        proof {
            lemma_pow10_bounds(decimals as int);
        }
        let n = amount_str.unicode_len();
        let dot = find_char(amount_str, '.');
        match dot {
            None => {
                let whole = match parse_digits(amount_str, 0, n) {
                    None => {
                        proof {
                            let part = amount_str@.subrange(0, n as int);
                            assert(part =~= amount_str@);
                            if part.len() > 0 && all_digits(part) {
                                lemma_digits_val_nonneg(part);
                                lemma_val_scale_ge(digits_val(part), pow10(decimals as int));
                            }
                        }
                        return Err(CommonError::InvalidAmount(String::from_str("invalid whole number")).wrap());
                    }
                    Some(v) => v,
                };
                proof {
                    assert(amount_str@.take(n as int) =~= amount_str@);
                }
                let divisor = pow10_u64(decimals);
                match whole.checked_mul(divisor) {
                    None => Err(CommonError::InvalidAmount(String::from_str("amount out of range")).wrap()),
                    Some(v) => Ok(v),
                }
            }
            Some(d) => {
                // reject a second dot
                if find_char_from(amount_str, '.', d + 1) {
                    return Err(CommonError::InvalidAmount(String::from_str("invalid amount format")).wrap());
                }
                let whole = match parse_digits(amount_str, 0, d) {
                    None => {
                        proof {
                            let part = amount_str@.subrange(0, d as int);
                            assert(part =~= amount_str@.take(d as int));
                            if part.len() > 0 && all_digits(part) {
                                lemma_digits_val_nonneg(part);
                                lemma_val_scale_ge(digits_val(part), pow10(decimals as int));
                            }
                        }
                        return Err(CommonError::InvalidAmount(String::from_str("invalid whole number")).wrap());
                    }
                    Some(v) => v,
                };
                let flen = n - d - 1;
                if flen > decimals as usize {
                    return Err(CommonError::InvalidAmount(String::from_str("too many decimal places")).wrap());
                }
                if decimals == 0 {
                    return Err(CommonError::InvalidAmount(String::from_str("invalid fraction")).wrap());
                }
                let frac: u64 = if flen == 0 {
                    proof {
                        assert(amount_str@.skip(d as int + 1).len() == 0);
                    }
                    0
                } else {
                    match parse_digits(amount_str, d + 1, n) {
                        None => {
                            proof {
                                let f = amount_str@.skip(d as int + 1);
                                assert(amount_str@.subrange(d as int + 1, n as int) =~= f);
                                if all_digits(f) {
                                    lemma_digits_val_nonneg(f);
                                    lemma_digits_val_nonneg(amount_str@.take(d as int));
                                    lemma_pow10_mono(0, decimals as int - f.len() as int);
                                    lemma_val_scale_ge(digits_val(f), pow10(decimals as int - f.len() as int));
                                    lemma_val_scale_ge2(digits_val(amount_str@.take(d as int)), pow10(decimals as int),
                                        digits_val(f), pow10(decimals as int - f.len() as int));
                                }
                            }
                            return Err(CommonError::InvalidAmount(String::from_str("invalid fraction")).wrap());
                        }
                        Some(v) => {
                            proof {
                                assert(amount_str@.subrange(d as int + 1, n as int) =~= amount_str@.skip(d as int + 1));
                            }
                            v
                        }
                    }
                };
                let divisor = pow10_u64(decimals);
                let scaled_whole = match whole.checked_mul(divisor) {
                    None => {
                        proof {
                            let w = amount_str@.take(d as int);
                            let f = amount_str@.skip(d as int + 1);
                            if all_digits(f) {
                                lemma_digits_val_nonneg(f);
                                lemma_digits_val_nonneg(w);
                                lemma_pow10_mono(0, decimals as int - f.len() as int);
                                lemma_val_scale_ge2(digits_val(w), pow10(decimals as int),
                                    digits_val(f), pow10(decimals as int - f.len() as int));
                            }
                        }
                        return Err(CommonError::InvalidAmount(String::from_str("amount out of range")).wrap());
                    }
                    Some(v) => v,
                };
                let pad_pow = pow10_u64(decimals - flen as u8);
                proof {
                    // the padded fraction fits: frac < 10^flen, so
                    // frac * 10^(decimals-flen) < 10^decimals <= 10^19
                    lemma_digits_val_bound(amount_str@.skip(d as int + 1));
                    lemma_pow10_mul(flen as int, decimals as int - flen as int);
                    lemma_pow10_bounds(decimals as int);
                    assert(digits_val(amount_str@.skip(d as int + 1)) * pow10(decimals as int - flen as int)
                        < pow10(decimals as int)) by {
                        vstd::arithmetic::mul::lemma_mul_inequality(
                            digits_val(amount_str@.skip(d as int + 1)) + 1 - 1,
                            pow10(flen as int) - 1,
                            pow10(decimals as int - flen as int));
                        vstd::arithmetic::mul::lemma_mul_is_distributive_sub_other_way(
                            pow10(decimals as int - flen as int), pow10(flen as int), 1);
                    }
                    assert(pow10(decimals as int - flen as int) >= 1) by {
                        lemma_pow10_mono(0, decimals as int - flen as int);
                    }
                }
                let scaled_frac = frac * pad_pow;
                match scaled_whole.checked_add(scaled_frac) {
                    None => Err(CommonError::InvalidAmount(String::from_str("amount out of range")).wrap()),
                    Some(v) => Ok(v),
                }
            }
        }
    }

    /// The current Unix time in seconds.
    pub fn get_timestamp(&self) -> i64 {
        now_timestamp()
    }

    /// A timestamp is valid when it is no older than `max_age` seconds
    /// before `now`.
    pub fn validate_timestamp(&self, timestamp: i64, max_age: i64, now: i64) -> (r: Result<(), MemeChainError>)
        ensures
            r is Ok <==> now - timestamp <= max_age,
    {
        if (now as i128) - (timestamp as i128) > max_age as i128 {
            return Err(CommonError::InvalidAmount(String::from_str("timestamp too old")).wrap());
        }
        Ok(())
    }
}

/// The value of a digit string is below ten to its length.
proof fn lemma_digits_val_bound(s: Seq<char>)
    requires
        all_digits(s),
    ensures
        0 <= digits_val(s) < pow10(s.len() as int),
    decreases s.len(),
{
    if s.len() > 0 {
        assert(all_digits(s.drop_last())) by {
            assert(forall|i: int| 0 <= i < s.len() - 1 ==> s.drop_last()[i] == s[i]);
        }
        lemma_digits_val_bound(s.drop_last());
        assert(is_digit(s.last()));
    }
}

/// Powers of ten multiply by adding exponents.
proof fn lemma_pow10_mul(a: int, b: int)
    requires
        0 <= a,
        0 <= b,
    ensures
        pow10(a) * pow10(b) == pow10(a + b),
    decreases a,
{
    if a == 0 {
        assert(pow10(0) == 1);
    } else {
        lemma_pow10_mul(a - 1, b);
        assert(pow10(a) == 10 * pow10(a - 1));
        assert((10 * pow10(a - 1)) * pow10(b) == 10 * (pow10(a - 1) * pow10(b)))
            by (nonlinear_arith);
    }
}

/// Compare two string slices for equality of their character views.
pub fn str_eq(a: &str, b: &str) -> (r: bool)
    ensures
        r == (a@ == b@),
{
    let na = a.unicode_len();
    let nb = b.unicode_len();
    if na != nb {
        return false;
    }
    let mut i: usize = 0;
    while i < na
        invariant
            0 <= i <= na,
            na == a@.len() == b@.len(),
            forall|j: int| 0 <= j < i ==> a@[j] == b@[j],
        decreases na - i,
    {
        if a.get_char(i) != b.get_char(i) {
            return false;
        }
        i += 1;
    }
    proof {
        assert(a@ =~= b@);
    }
    true
}

/// Find the first occurrence of a character; mirrors the view-level
/// index_of_first.
fn find_char(s: &str, c: char) -> (r: Option<usize>)
    ensures
        r matches Some(i) ==> i < s@.len() && s@[i as int] == c
            && (forall|j: int| 0 <= j < i ==> s@[j] != c)
            && s@.contains(c)
            && s@.index_of_first(c) == Some(i as int),
        r is None ==> !s@.contains(c),
{
    let n = s.unicode_len();
    let mut i: usize = 0;
    while i < n
        invariant
            0 <= i <= n,
            n == s@.len(),
            forall|j: int| 0 <= j < i ==> s@[j] != c,
        decreases n - i,
    {
        if s.get_char(i) == c {
            proof {
                s@.index_of_first_ensures(c);
            }
            return Some(i);
        }
        i += 1;
    }
    proof {
        if s@.contains(c) {
            let w = choose|j: int| 0 <= j < s@.len() && s@[j] == c;
        }
    }
    None
}

/// Whether the character occurs at or after the given position.
fn find_char_from(s: &str, c: char, from: usize) -> (r: bool)
    requires
        from <= s@.len(),
    ensures
        r == s@.skip(from as int).contains(c),
{
    let n = s.unicode_len();
    let mut i: usize = from;
    while i < n
        invariant
            from <= i <= n,
            n == s@.len(),
            forall|j: int| from <= j < i ==> s@[j] != c,
        decreases n - i,
    {
        if s.get_char(i) == c {
            proof {
                assert(s@.skip(from as int)[i - from as int] == c);
            }
            return true;
        }
        i += 1;
    }
    proof {
        assert forall|k: int| 0 <= k < s@.skip(from as int).len()
            implies s@.skip(from as int)[k] != c by {
            assert(s@.skip(from as int)[k] == s@[from + k]);
        }
    }
    false
}

/// Parse the digit run in `s[from..to]`; `None` when some character is
/// not a digit, the run is empty, or the value does not fit.
fn parse_digits(s: &str, from: usize, to: usize) -> (r: Option<u64>)
    requires
        from <= to <= s@.len(),
    ensures
        ({
            let part = s@.subrange(from as int, to as int);
            &&& (r is Some <==> part.len() > 0 && all_digits(part) && digits_val(part) <= u64::MAX)
            &&& (r matches Some(v) ==> v == digits_val(part))
        }),
{
    if from == to {
        proof {
            assert(s@.subrange(from as int, to as int).len() == 0);
        }
        return None;
    }
    let mut acc: u64 = 0;
    let mut i: usize = from;
    while i < to
        invariant
            from <= i <= to <= s@.len(),
            all_digits(s@.subrange(from as int, i as int)),
            acc == digits_val(s@.subrange(from as int, i as int)),
        decreases to - i,
    {
        let c = s.get_char(i);
        let u = c as u32;
        if u < 48 || u > 57 {
            proof {
                assert(s@.subrange(from as int, to as int)[i - from as int] == c);
            }
            return None;
        }
        let d = (u - 48) as u64;
        let acc2 = match acc.checked_mul(10) {
            None => {
                proof {
                    let part = s@.subrange(from as int, to as int);
                    if all_digits(part) {
                        assert(s@.subrange(from as int, i as int + 1).drop_last() =~= s@.subrange(from as int, i as int));
                        assert(part.subrange(0, i as int + 1 - from) =~= s@.subrange(from as int, i as int + 1));
                        lemma_prefix_val_le(part, i as int + 1 - from);
                    }
                }
                return None;
            }
            Some(v) => v,
        };
        let acc3 = match acc2.checked_add(d) {
            None => {
                proof {
                    let part = s@.subrange(from as int, to as int);
                    if all_digits(part) {
                        assert(s@.subrange(from as int, i as int + 1).drop_last() =~= s@.subrange(from as int, i as int));
                        assert(part.subrange(0, i as int + 1 - from) =~= s@.subrange(from as int, i as int + 1));
                        lemma_prefix_val_le(part, i as int + 1 - from);
                    }
                }
                return None;
            }
            Some(v) => v,
        };
        acc = acc3;
        proof {
            assert(s@.subrange(from as int, i as int + 1).drop_last() =~= s@.subrange(from as int, i as int));
            assert(s@.subrange(from as int, i as int + 1).last() == c);
        }
        i += 1;
    }
    proof {
        assert(s@.subrange(from as int, to as int) =~= s@.subrange(from as int, to as int));
    }
    Some(acc)
}

/// The value of a prefix of a digit string is no more than the value
/// of the whole string.
proof fn lemma_prefix_val_le(s: Seq<char>, k: int)
    requires
        0 <= k <= s.len(),
        all_digits(s),
    ensures
        digits_val(s.subrange(0, k)) <= digits_val(s),
    decreases s.len() - k,
{
    if k < s.len() {
        lemma_prefix_val_le(s, k + 1);
        let a = s.subrange(0, k);
        let b = s.subrange(0, k + 1);
        assert(b.drop_last() =~= a);
        assert(all_digits(a)) by {
            assert(forall|i: int| 0 <= i < k ==> a[i] == s[i]);
        }
        lemma_digits_val_nonneg(a);
        assert(is_digit(b.last()));
        assert(digits_val(b) == digits_val(a) * 10 + (b.last() as u32 - 48));
        assert(digits_val(a) <= digits_val(a) * 10) by (nonlinear_arith)
            requires digits_val(a) >= 0;
    } else {
        assert(s.subrange(0, k) =~= s);
    }
}

/// A non-negative value scaled by a positive factor is at least the
/// value.
proof fn lemma_val_scale_ge(v: int, p: int)
    requires
        v >= 0,
        p >= 1,
    ensures
        v * p >= v,
{
    assert(v * p >= v * 1) by (nonlinear_arith)
        requires v >= 0, p >= 1;
}

/// Adding a non-negative scaled fraction cannot shrink the sum.
proof fn lemma_val_scale_ge2(w: int, p: int, f: int, q: int)
    requires
        w >= 0,
        p >= 1,
        f >= 0,
        q >= 0,
    ensures
        w * p + f * q >= w * p >= w,
{
    lemma_val_scale_ge(w, p);
    assert(f * q >= 0) by (nonlinear_arith)
        requires f >= 0, q >= 0;
}

/// Digit strings have non-negative values.
proof fn lemma_digits_val_nonneg(s: Seq<char>)
    requires
        all_digits(s),
    ensures
        digits_val(s) >= 0,
    decreases s.len(),
{
    if s.len() > 0 {
        assert(all_digits(s.drop_last())) by {
            assert(forall|i: int| 0 <= i < s.len() - 1 ==> s.drop_last()[i] == s[i]);
        }
        lemma_digits_val_nonneg(s.drop_last());
        assert(is_digit(s.last()));
        assert(digits_val(s.drop_last()) * 10 >= 0) by (nonlinear_arith)
            requires digits_val(s.drop_last()) >= 0;
    }
}

impl Transaction {
    /// The transaction's hash: SHA-256 of its serialized form, in hex.
    pub fn hash(&self) -> (r: String)
        ensures
            r@ == hex_of(sha256_of(enc_transaction(self@))),
            r@.len() == 64,
    {
        let mut bytes: Vec<u8> = Vec::new();
        push_transaction(&mut bytes, self);
        proof {
            assert(bytes@ =~= enc_transaction(self@));
        }
        let digest = sha256(bytes.as_slice());
        to_hex(digest.as_slice())
    }
}

impl Block {
    /// Compute and record the block hash: SHA-256 of the height,
    /// timestamp and previous hash, rendered in decimal and hex.
    pub fn calculate_hash(&mut self) -> (r: String)
        ensures
            ({
                let text = dec_digits(old(self).height as int)
                    + dec_signed(old(self).timestamp as int)
                    + old(self).previous_hash@;
                &&& final(self).hash@ == hex_of(sha256_of(encode_utf8(text)))
                &&& r@ == final(self).hash@
                &&& final(self).height == old(self).height
                &&& final(self).timestamp == old(self).timestamp
                &&& final(self).transactions@ == old(self).transactions@
                &&& final(self).results@ == old(self).results@
                &&& final(self).previous_hash == old(self).previous_hash
            }),
    {
        let mut text = u64_to_dec_string(self.height);
        text.append(i64_to_dec_string(self.timestamp).as_str());
        text.append(self.previous_hash.as_str());
        let digest = sha256(text.as_str().as_bytes());
        let h = to_hex(digest.as_slice());
        self.hash = h.clone();
        proof {
            assert(text@ =~= dec_digits(old(self).height as int)
                + dec_signed(old(self).timestamp as int)
                + old(self).previous_hash@);
        }
        h
    }
}

} // verus!
