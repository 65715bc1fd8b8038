//! Verified byte serialization for persisted records.
//!
//! Every stored entity is laid out as a concatenation of fixed-width
//! little-endian integers and length-prefixed UTF-8 strings. Each
//! decoder's contract both pins down what the consumed bytes were
//! (soundness) and guarantees that decoding an encoding yields the
//! original value (completeness), so every record round-trips.

use vstd::prelude::*;
use vstd::seq_lib::*;
use vstd::bytes::*;
use vstd::utf8::{encode_utf8, valid_utf8, encode_utf8_valid_utf8, encode_utf8_decode_utf8};
use crate::types::{AntiRugSettings, Balance, BalanceV, Token, TokenV, Collection, CollectionV, Nft, NftV, Address, Payload, PayloadV, Transaction, TransactionV, TransactionResult, TransactionResultV, Block, BlockV, vopt, vopt_addr, vopt_payload};

verus! {

// ---------------------------------------------------------------------
// Spec-level encodings
// ---------------------------------------------------------------------

/// A u64 as 8 little-endian bytes.
pub open spec fn enc_u64(v: u64) -> Seq<u8> {
    spec_u64_to_le_bytes(v)
}

/// An i64, biased into u64 range so that the byte layout is total.
pub open spec fn enc_i64(v: i64) -> Seq<u8> {
    enc_u64(((v - i64::MIN) as u64))
}

/// A bool as one byte.
pub open spec fn enc_bool(v: bool) -> Seq<u8> {
    seq![if v { 1u8 } else { 0u8 }]
}

/// A byte string, length-prefixed.
pub open spec fn enc_bytes(b: Seq<u8>) -> Seq<u8> {
    enc_u64(b.len() as u64) + b
}

/// A character string as its length-prefixed UTF-8 encoding.
#[verifier::opaque]
pub open spec fn enc_str(s: Seq<char>) -> Seq<u8> {
    enc_bytes(encode_utf8(s))
}

/// An optional string: a presence byte, then the string if present.
#[verifier::opaque]
pub open spec fn enc_opt_str(o: Option<Seq<char>>) -> Seq<u8> {
    match o {
        None => seq![0u8],
        Some(s) => seq![1u8] + enc_str(s),
    }
}

/// An optional u64: a presence byte, then the value if present.
pub open spec fn enc_opt_u64(o: Option<u64>) -> Seq<u8> {
    match o {
        None => seq![0u8],
        Some(v) => seq![1u8] + enc_u64(v),
    }
}

/// An optional bool: a presence byte, then the value if present.
pub open spec fn enc_opt_bool(o: Option<bool>) -> Seq<u8> {
    match o {
        None => seq![0u8],
        Some(v) => seq![1u8] + enc_bool(v),
    }
}

/// The view of an optional string.
pub open spec fn ostr(o: Option<String>) -> Option<Seq<char>> {
    match o {
        None => None,
        Some(s) => Some(s@),
    }
}

// ---------------------------------------------------------------------
// Small sequence lemmas shared by the decoders
// ---------------------------------------------------------------------

/// Splitting a concatenated prefix: if `a + c` is a prefix of `s`, then
/// `a` is a prefix of `s` and `c` is a prefix of `s` after `a`.
pub proof fn lemma_prefix_split(a: Seq<u8>, c: Seq<u8>, s: Seq<u8>)
    requires
        (a + c).is_prefix_of(s),
    ensures
        a.is_prefix_of(s),
        c.is_prefix_of(s.skip(a.len() as int)),
{
    let n = a.len() as int;
    let m = c.len() as int;
    let pre = s.subrange(0, n + m);
    assert forall|k: int| 0 <= k < n implies a[k] == s[k] by {
        assert((a + c)[k] == a[k]);
        assert(pre[k] == s[k]);
    }
    assert(a =~= s.subrange(0, n));
    assert forall|k: int| 0 <= k < m implies c[k] == s.skip(n)[k] by {
        assert((a + c)[n + k] == c[k]);
        assert(pre[n + k] == s[n + k]);
        assert(s.skip(n)[k] == s[n + k]);
    }
    assert(c =~= s.skip(n).subrange(0, m));
}

/// A nonempty prefix fixes the first byte.
pub proof fn lemma_prefix_first(p: Seq<u8>, s: Seq<u8>)
    requires
        p.is_prefix_of(s),
        p.len() >= 1,
    ensures
        p[0] == s[0],
{
    assert(p[0] == s.subrange(0, p.len() as int)[0]);
}

/// A subrange equals the concatenation of its two halves.
pub proof fn lemma_subrange_concat(s: Seq<u8>, i: int, m: int, j: int)
    requires
        0 <= i <= m <= j <= s.len(),
    ensures
        s.subrange(i, j) == s.subrange(i, m) + s.subrange(m, j),
{
    assert(s.subrange(i, j) =~= s.subrange(i, m) + s.subrange(m, j));
}

/// Skipping twice is skipping the sum.
pub proof fn lemma_skip_skip(s: Seq<u8>, i: int, j: int)
    requires
        0 <= i,
        0 <= j,
        i + j <= s.len(),
    ensures
        s.skip(i).skip(j) == s.skip(i + j),
{
    assert(s.skip(i).skip(j) =~= s.skip(i + j));
}

/// The u64 encoding is injective.
pub proof fn lemma_enc_u64_inj(x: u64, y: u64)
    requires
        enc_u64(x) == enc_u64(y),
    ensures
        x == y,
{
    lemma_auto_spec_u64_to_from_le_bytes();
}

/// The u64 encoding is 8 bytes long.
pub proof fn lemma_enc_u64_len(x: u64)
    ensures
        enc_u64(x).len() == 8,
{
    lemma_auto_spec_u64_to_from_le_bytes();
}

// ---------------------------------------------------------------------
// Encoders
// ---------------------------------------------------------------------

/// Append the encoding of a u64.
pub fn push_u64(out: &mut Vec<u8>, v: u64)
    ensures
        final(out)@ == old(out)@ + enc_u64(v),
{
    let bs = u64_to_le_bytes(v);
    out.extend_from_slice(bs.as_slice());
    assert(final(out)@ =~= old(out)@ + enc_u64(v));
}

/// Append the encoding of an i64.
pub fn push_i64(out: &mut Vec<u8>, v: i64)
    ensures
        final(out)@ == old(out)@ + enc_i64(v),
{
    let biased: u64 = ((v as i128) - (i64::MIN as i128)) as u64;
    push_u64(out, biased);
}

/// Append the encoding of a bool.
pub fn push_bool(out: &mut Vec<u8>, v: bool)
    ensures
        final(out)@ == old(out)@ + enc_bool(v),
{
    out.push(if v { 1u8 } else { 0u8 });
    assert(final(out)@ =~= old(out)@ + enc_bool(v));
}

/// Append the encoding of a string slice.
pub fn push_str(out: &mut Vec<u8>, s: &str)
    ensures
        final(out)@ == old(out)@ + enc_str(s@),
{
    proof {
        reveal(enc_str);
    }
    let bs = s.as_bytes_vec();
    push_u64(out, bs.len() as u64);
    out.extend_from_slice(bs.as_slice());
    assert(final(out)@ =~= old(out)@ + enc_str(s@));
}

/// Append the encoding of an optional string.
pub fn push_opt_str(out: &mut Vec<u8>, o: &Option<String>)
    ensures
        final(out)@ == old(out)@ + enc_opt_str(ostr(*o)),
{
    proof {
        reveal(enc_opt_str);
    }
    match o {
        None => {
            out.push(0u8);
            assert(final(out)@ =~= old(out)@ + enc_opt_str(ostr(*o)));
        }
        Some(s) => {
            out.push(1u8);
            push_str(out, s.as_str());
            assert(final(out)@ =~= old(out)@ + enc_opt_str(ostr(*o)));
        }
    }
}

/// Append the encoding of an optional u64.
pub fn push_opt_u64(out: &mut Vec<u8>, o: &Option<u64>)
    ensures
        final(out)@ == old(out)@ + enc_opt_u64(*o),
{
    match o {
        None => {
            out.push(0u8);
            assert(final(out)@ =~= old(out)@ + enc_opt_u64(*o));
        }
        Some(v) => {
            out.push(1u8);
            push_u64(out, *v);
            assert(final(out)@ =~= old(out)@ + enc_opt_u64(*o));
        }
    }
}

/// Append the encoding of an optional bool.
pub fn push_opt_bool(out: &mut Vec<u8>, o: &Option<bool>)
    ensures
        final(out)@ == old(out)@ + enc_opt_bool(*o),
{
    match o {
        None => {
            out.push(0u8);
            assert(final(out)@ =~= old(out)@ + enc_opt_bool(*o));
        }
        Some(v) => {
            out.push(1u8);
            push_bool(out, *v);
            assert(final(out)@ =~= old(out)@ + enc_opt_bool(*o));
        }
    }
}

// ---------------------------------------------------------------------
// Trusted bridge from bytes back to a string
// ---------------------------------------------------------------------

/// Relies on core::str::from_utf8: it accepts exactly the valid UTF-8
/// byte strings, and the returned string holds the given bytes.
#[verifier::external_body]
fn bytes_to_string(v: &[u8]) -> (r: Option<String>)
    ensures
        r matches Some(s) ==> encode_utf8(s@) =~= v@,
        valid_utf8(v@) ==> r is Some,
{
    match core::str::from_utf8(v) {
        Ok(s) => Some(s.to_string()),
        Err(_) => None,
    }
}

// ---------------------------------------------------------------------
// Decoders
// ---------------------------------------------------------------------

/// Decode a u64 at offset `i`; succeeds exactly when 8 bytes remain.
pub fn dec_u64(b: &Vec<u8>, i: usize) -> (r: Option<(u64, usize)>)
    requires
        i <= b@.len(),
    ensures
        match r {
            Some((v, j)) => i + 8 == j && j <= b@.len()
                && b@.subrange(i as int, j as int) == enc_u64(v),
            None => i + 8 > b@.len(),
        },
        forall|x: u64| #![trigger enc_u64(x)]
            enc_u64(x).is_prefix_of(b@.skip(i as int))
                ==> (r matches Some((v, j)) && v == x && j == i + 8),
{
    proof {
        lemma_auto_spec_u64_to_from_le_bytes();
    }
    if i > b.len() || b.len() - i < 8 {
        proof {
            assert forall|x: u64| !(#[trigger] enc_u64(x)).is_prefix_of(b@.skip(i as int)) by {
                lemma_enc_u64_len(x);
            }
        }
        return None;
    }
    let s: &[u8] = &b.as_slice()[i..i + 8];
    let v = u64_from_le_bytes(s);
    proof {
        assert(s@ =~= b@.subrange(i as int, i as int + 8));
        assert(spec_u64_to_le_bytes(spec_u64_from_le_bytes(s@)) == s@);
        assert forall|x: u64|
            #![trigger enc_u64(x)]
            enc_u64(x).is_prefix_of(b@.skip(i as int)) implies x == v by {
            lemma_enc_u64_len(x);
            assert(enc_u64(x) =~= b@.skip(i as int).subrange(0, 8));
            assert(b@.skip(i as int).subrange(0, 8) =~= b@.subrange(i as int, i as int + 8));
            lemma_enc_u64_inj(x, v);
        }
    }
    Some((v, i + 8))
}

/// Decode an i64 at offset `i`; succeeds exactly when 8 bytes remain.
pub fn dec_i64(b: &Vec<u8>, i: usize) -> (r: Option<(i64, usize)>)
    requires
        i <= b@.len(),
    ensures
        match r {
            Some((v, j)) => i + 8 == j && j <= b@.len()
                && b@.subrange(i as int, j as int) == enc_i64(v),
            None => i + 8 > b@.len(),
        },
        forall|x: i64| #![trigger enc_i64(x)]
            enc_i64(x).is_prefix_of(b@.skip(i as int))
                ==> (r matches Some((v, j)) && v == x && j == i + 8),
{
    match dec_u64(b, i) {
        None => None,
        Some((biased, j)) => {
            let v: i64 = ((biased as i128) + (i64::MIN as i128)) as i64;
            proof {
                assert(enc_i64(v) == enc_u64(biased));
                assert forall|x: i64|
                    #![trigger enc_i64(x)]
                    enc_i64(x).is_prefix_of(b@.skip(i as int)) implies x == v by {
                    assert(enc_u64(((x - i64::MIN) as u64)).is_prefix_of(b@.skip(i as int)));
                }
            }
            Some((v, j))
        }
    }
}

/// Decode a bool at offset `i`. Any nonzero presence byte would have
/// come from no encoding, so only 0 and 1 are accepted.
pub fn dec_bool(b: &Vec<u8>, i: usize) -> (r: Option<(bool, usize)>)
    requires
        i <= b@.len(),
    ensures
        r matches Some((v, j)) ==> i + 1 == j && j <= b@.len()
            && b@.subrange(i as int, j as int) == enc_bool(v),
        forall|v: bool| #![trigger enc_bool(v)]
            enc_bool(v).is_prefix_of(b@.skip(i as int))
                ==> (r matches Some((w, j)) && w == v && j == i + 1),
{
    if i >= b.len() {
        proof {
            assert forall|v: bool| !(#[trigger] enc_bool(v)).is_prefix_of(b@.skip(i as int)) by {
                assert(enc_bool(v).len() == 1);
            }
        }
        return None;
    }
    let byte = b[i];
    proof {
        assert forall|v: bool|
            #![trigger enc_bool(v)]
            enc_bool(v).is_prefix_of(b@.skip(i as int))
                implies (if v { 1u8 } else { 0u8 }) == b@[i as int] by {
            lemma_prefix_first(enc_bool(v), b@.skip(i as int));
            assert(b@.skip(i as int)[0] == b@[i as int]);
            assert(enc_bool(v)[0] == (if v { 1u8 } else { 0u8 }));
        }
    }
    if byte == 1u8 {
        assert(b@.subrange(i as int, i as int + 1) =~= enc_bool(true));
        Some((true, i + 1))
    } else if byte == 0u8 {
        assert(b@.subrange(i as int, i as int + 1) =~= enc_bool(false));
        Some((false, i + 1))
    } else {
        None
    }
}

/// Decode a length-prefixed UTF-8 string at offset `i`.
pub fn dec_str(b: &Vec<u8>, i: usize) -> (r: Option<(String, usize)>)
    requires
        i <= b@.len(),
    ensures
        r matches Some((v, j)) ==> i <= j <= b@.len()
            && b@.subrange(i as int, j as int) == enc_str(v@),
        forall|s: Seq<char>| #![trigger enc_str(s)]
            enc_str(s).is_prefix_of(b@.skip(i as int))
                ==> (r matches Some((v, j)) && v@ == s && j == i + enc_str(s).len()),
{
    proof {
        reveal(enc_str);
        lemma_auto_spec_u64_to_from_le_bytes();
    }
    let (n, m) = match dec_u64(b, i) {
        None => {
            proof {
                assert forall|s: Seq<char>|
                    !(#[trigger] enc_str(s)).is_prefix_of(b@.skip(i as int)) by {
                    if enc_str(s).is_prefix_of(b@.skip(i as int)) {
                        lemma_enc_u64_len(encode_utf8(s).len() as u64);
                        lemma_prefix_split(enc_u64(encode_utf8(s).len() as u64), encode_utf8(s), b@.skip(i as int));
                        assert(b@.skip(i as int).len() >= 8);
                    }
                }
            }
            return None;
        }
        Some(x) => x,
    };
    // Remaining bytes after the length prefix.
    let rem = b.len() - m;
    if n > rem as u64 {
        proof {
            assert forall|s: Seq<char>|
                !(#[trigger] enc_str(s)).is_prefix_of(b@.skip(i as int)) by {
                if enc_str(s).is_prefix_of(b@.skip(i as int)) {
                    lemma_enc_u64_len(encode_utf8(s).len() as u64);
                    lemma_prefix_split(enc_u64(encode_utf8(s).len() as u64), encode_utf8(s), b@.skip(i as int));
                    let pre = b@.skip(i as int).subrange(0, 8);
                    assert(pre =~= b@.subrange(i as int, m as int));
                    lemma_enc_u64_inj(encode_utf8(s).len() as u64, n);
                    assert(b@.skip(i as int).skip(8).len() >= encode_utf8(s).len());
                }
            }
        }
        return None;
    }
    let nlen = n as usize;
    let s: &[u8] = &b.as_slice()[m..m + nlen];
    proof {
        assert(s@ =~= b@.subrange(m as int, (m + nlen) as int));
    }
    match bytes_to_string(s) {
        None => {
            proof {
                assert forall|t: Seq<char>|
                    !(#[trigger] enc_str(t)).is_prefix_of(b@.skip(i as int)) by {
                    if enc_str(t).is_prefix_of(b@.skip(i as int)) {
                        lemma_enc_u64_len(encode_utf8(t).len() as u64);
                        lemma_prefix_split(enc_u64(encode_utf8(t).len() as u64), encode_utf8(t), b@.skip(i as int));
                        let pre = b@.skip(i as int).subrange(0, 8);
                        assert(pre =~= b@.subrange(i as int, m as int));
                        lemma_enc_u64_inj(encode_utf8(t).len() as u64, n);
                        // the body equals the encoding of t, which is valid UTF-8
                        assert(encode_utf8(t) =~= s@);
                        encode_utf8_valid_utf8(t);
                    }
                }
            }
            None
        }
        Some(v) => {
            let j = m + nlen;
            proof {
                assert(b@.subrange(i as int, m as int) == enc_u64(n));
                lemma_subrange_concat(b@, i as int, m as int, j as int);
                assert(b@.subrange(i as int, j as int) == enc_str(v@));
                assert forall|t: Seq<char>|
                    #![trigger enc_str(t)]
                    enc_str(t).is_prefix_of(b@.skip(i as int))
                        implies (v@ == t && j == i + enc_str(t).len()) by {
                    lemma_enc_u64_len(encode_utf8(t).len() as u64);
                    lemma_prefix_split(enc_u64(encode_utf8(t).len() as u64), encode_utf8(t), b@.skip(i as int));
                    let pre = b@.skip(i as int).subrange(0, 8);
                    assert(pre =~= b@.subrange(i as int, m as int));
                    lemma_enc_u64_inj(encode_utf8(t).len() as u64, n);
                    assert(encode_utf8(t) =~= s@);
                    assert(encode_utf8(t) == encode_utf8(v@));
                    encode_utf8_decode_utf8(t);
                    encode_utf8_decode_utf8(v@);
                }
            }
            Some((v, j))
        }
    }
}

/// Decode an optional string at offset `i`.
pub fn dec_opt_str(b: &Vec<u8>, i: usize) -> (r: Option<(Option<String>, usize)>)
    requires
        i <= b@.len(),
    ensures
        r matches Some((v, j)) ==> i <= j <= b@.len()
            && b@.subrange(i as int, j as int) == enc_opt_str(ostr(v)),
        forall|o: Option<Seq<char>>| #![trigger enc_opt_str(o)]
            enc_opt_str(o).is_prefix_of(b@.skip(i as int))
                ==> (r matches Some((v, j)) && ostr(v) == o && j == i + enc_opt_str(o).len()),
{
    proof {
        reveal(enc_opt_str);
    }
    if i >= b.len() {
        proof {
            assert forall|o: Option<Seq<char>>|
                !(#[trigger] enc_opt_str(o)).is_prefix_of(b@.skip(i as int)) by {
                lemma_opt_str_first(o);
            }
        }
        return None;
    }
    let tag = b[i];
    proof {
        assert forall|o: Option<Seq<char>>|
            #![trigger enc_opt_str(o)]
            enc_opt_str(o).is_prefix_of(b@.skip(i as int))
                implies enc_opt_str(o)[0] == b@[i as int] by {
            lemma_opt_str_first(o);
            lemma_prefix_first(enc_opt_str(o), b@.skip(i as int));
            assert(b@.skip(i as int)[0] == b@[i as int]);
        }
    }
    if tag == 0u8 {
        proof {
            assert(b@.subrange(i as int, i as int + 1) =~= enc_opt_str(None));
            assert forall|o: Option<Seq<char>>|
                #![trigger enc_opt_str(o)]
                enc_opt_str(o).is_prefix_of(b@.skip(i as int)) implies o is None by {
                lemma_opt_str_first(o);
            }
        }
        Some((None, i + 1))
    } else if tag == 1u8 {
        match dec_str(b, i + 1) {
            None => {
                proof {
                    assert forall|o: Option<Seq<char>>|
                        !(#[trigger] enc_opt_str(o)).is_prefix_of(b@.skip(i as int)) by {
                        if enc_opt_str(o).is_prefix_of(b@.skip(i as int)) {
                            lemma_opt_str_first(o);
                            match o {
                                Some(s) => {
                                    lemma_prefix_split(seq![1u8], enc_str(s), b@.skip(i as int));
                                    lemma_skip_skip(b@, i as int, 1);
                                    assert(enc_str(s).is_prefix_of(b@.skip(i as int + 1)));
                                }
                                None => {}
                            }
                        }
                    }
                }
                None
            }
            Some((v, j)) => {
                proof {
                    assert(b@.subrange(i as int, i as int + 1) =~= seq![1u8]);
                    lemma_subrange_concat(b@, i as int, i as int + 1, j as int);
                    assert(b@.subrange(i as int, j as int) =~= enc_opt_str(Some(v@)));
                    assert forall|o: Option<Seq<char>>|
                        #![trigger enc_opt_str(o)]
                        enc_opt_str(o).is_prefix_of(b@.skip(i as int))
                            implies (ostr(Some(v)) == o && j == i + enc_opt_str(o).len()) by {
                        lemma_opt_str_first(o);
                        match o {
                            Some(s) => {
                                lemma_prefix_split(seq![1u8], enc_str(s), b@.skip(i as int));
                                lemma_skip_skip(b@, i as int, 1);
                                assert(enc_str(s).is_prefix_of(b@.skip(i as int + 1)));
                                assert(v@ == s);
                            }
                            None => {}
                        }
                    }
                }
                Some((Some(v), j))
            }
        }
    } else {
        proof {
            assert forall|o: Option<Seq<char>>|
                !(#[trigger] enc_opt_str(o)).is_prefix_of(b@.skip(i as int)) by {
                if enc_opt_str(o).is_prefix_of(b@.skip(i as int)) {
                    lemma_opt_str_first(o);
                }
            }
        }
        None
    }
}

/// The first byte of an optional-string encoding is its presence tag.
proof fn lemma_opt_str_first(o: Option<Seq<char>>)
    ensures
        enc_opt_str(o).len() >= 1,
        enc_opt_str(o)[0] == (if o is Some { 1u8 } else { 0u8 }),
{
    reveal(enc_opt_str);
    match o {
        Some(s) => {
            assert(enc_opt_str(o) == seq![1u8] + enc_str(s));
            assert((seq![1u8] + enc_str(s))[0] == 1u8);
        }
        None => {
            assert(enc_opt_str(o) == seq![0u8]);
        }
    }
}

/// The first byte of an optional-u64 encoding is its presence tag.
proof fn lemma_opt_u64_first(o: Option<u64>)
    ensures
        enc_opt_u64(o).len() >= 1,
        enc_opt_u64(o)[0] == (if o is Some { 1u8 } else { 0u8 }),
{
    match o {
        Some(x) => {
            lemma_enc_u64_len(x);
            assert(enc_opt_u64(o) == seq![1u8] + enc_u64(x));
            assert((seq![1u8] + enc_u64(x))[0] == 1u8);
        }
        None => {
            assert(enc_opt_u64(o) == seq![0u8]);
        }
    }
}

/// The first byte of an optional-bool encoding is its presence tag.
proof fn lemma_opt_bool_first(o: Option<bool>)
    ensures
        enc_opt_bool(o).len() >= 1,
        enc_opt_bool(o)[0] == (if o is Some { 1u8 } else { 0u8 }),
{
    match o {
        Some(x) => {
            assert(enc_opt_bool(o) == seq![1u8] + enc_bool(x));
            assert((seq![1u8] + enc_bool(x))[0] == 1u8);
        }
        None => {
            assert(enc_opt_bool(o) == seq![0u8]);
        }
    }
}

/// Decode an optional u64 at offset `i`.
pub fn dec_opt_u64(b: &Vec<u8>, i: usize) -> (r: Option<(Option<u64>, usize)>)
    requires
        i <= b@.len(),
    ensures
        r matches Some((v, j)) ==> i <= j <= b@.len()
            && b@.subrange(i as int, j as int) == enc_opt_u64(v),
        forall|o: Option<u64>| #![trigger enc_opt_u64(o)]
            enc_opt_u64(o).is_prefix_of(b@.skip(i as int))
                ==> (r matches Some((v, j)) && v == o && j == i + enc_opt_u64(o).len()),
{
    if i >= b.len() {
        proof {
            assert forall|o: Option<u64>|
                !(#[trigger] enc_opt_u64(o)).is_prefix_of(b@.skip(i as int)) by {
                lemma_opt_u64_first(o);
            }
        }
        return None;
    }
    let tag = b[i];
    proof {
        assert forall|o: Option<u64>|
            #![trigger enc_opt_u64(o)]
            enc_opt_u64(o).is_prefix_of(b@.skip(i as int))
                implies enc_opt_u64(o)[0] == b@[i as int] by {
            lemma_opt_u64_first(o);
            lemma_prefix_first(enc_opt_u64(o), b@.skip(i as int));
            assert(b@.skip(i as int)[0] == b@[i as int]);
        }
    }
    if tag == 0u8 {
        proof {
            assert(b@.subrange(i as int, i as int + 1) =~= enc_opt_u64(None));
            assert forall|o: Option<u64>|
                #![trigger enc_opt_u64(o)]
                enc_opt_u64(o).is_prefix_of(b@.skip(i as int)) implies o is None by {
                lemma_opt_u64_first(o);
            }
        }
        Some((None, i + 1))
    } else if tag == 1u8 {
        match dec_u64(b, i + 1) {
            None => {
                proof {
                    assert forall|o: Option<u64>|
                        !(#[trigger] enc_opt_u64(o)).is_prefix_of(b@.skip(i as int)) by {
                        if enc_opt_u64(o).is_prefix_of(b@.skip(i as int)) {
                            lemma_opt_u64_first(o);
                            match o {
                                Some(x) => {
                                    lemma_enc_u64_len(x);
                                    lemma_prefix_split(seq![1u8], enc_u64(x), b@.skip(i as int));
                                    assert(b@.skip(i as int).skip(1).len() >= 8);
                                }
                                None => {}
                            }
                        }
                    }
                }
                None
            }
            Some((v, j)) => {
                proof {
                    assert(b@.subrange(i as int, i as int + 1) =~= seq![1u8]);
                    lemma_subrange_concat(b@, i as int, i as int + 1, j as int);
                    assert(b@.subrange(i as int, j as int) =~= enc_opt_u64(Some(v)));
                    assert forall|o: Option<u64>|
                        #![trigger enc_opt_u64(o)]
                        enc_opt_u64(o).is_prefix_of(b@.skip(i as int))
                            implies (Some(v) == o && j == i + enc_opt_u64(o).len()) by {
                        lemma_opt_u64_first(o);
                        match o {
                            Some(x) => {
                                lemma_enc_u64_len(x);
                                lemma_prefix_split(seq![1u8], enc_u64(x), b@.skip(i as int));
                                lemma_skip_skip(b@, i as int, 1);
                                assert(enc_u64(x).is_prefix_of(b@.skip(i as int + 1)));
                                let pre = b@.skip(i as int + 1).subrange(0, 8);
                                assert(pre =~= b@.subrange(i as int + 1, j as int));
                                lemma_enc_u64_inj(x, v);
                            }
                            None => {}
                        }
                    }
                }
                Some((Some(v), j))
            }
        }
    } else {
        proof {
            assert forall|o: Option<u64>|
                !(#[trigger] enc_opt_u64(o)).is_prefix_of(b@.skip(i as int)) by {
                if enc_opt_u64(o).is_prefix_of(b@.skip(i as int)) {
                    lemma_opt_u64_first(o);
                }
            }
        }
        None
    }
}

/// Decode an optional bool at offset `i`.
pub fn dec_opt_bool(b: &Vec<u8>, i: usize) -> (r: Option<(Option<bool>, usize)>)
    requires
        i <= b@.len(),
    ensures
        r matches Some((v, j)) ==> i <= j <= b@.len()
            && b@.subrange(i as int, j as int) == enc_opt_bool(v),
        forall|o: Option<bool>| #![trigger enc_opt_bool(o)]
            enc_opt_bool(o).is_prefix_of(b@.skip(i as int))
                ==> (r matches Some((v, j)) && v == o && j == i + enc_opt_bool(o).len()),
{
    if i >= b.len() {
        proof {
            assert forall|o: Option<bool>|
                !(#[trigger] enc_opt_bool(o)).is_prefix_of(b@.skip(i as int)) by {
                lemma_opt_bool_first(o);
            }
        }
        return None;
    }
    let tag = b[i];
    proof {
        assert forall|o: Option<bool>|
            #![trigger enc_opt_bool(o)]
            enc_opt_bool(o).is_prefix_of(b@.skip(i as int))
                implies enc_opt_bool(o)[0] == b@[i as int] by {
            lemma_opt_bool_first(o);
            lemma_prefix_first(enc_opt_bool(o), b@.skip(i as int));
            assert(b@.skip(i as int)[0] == b@[i as int]);
        }
    }
    if tag == 0u8 {
        proof {
            assert(b@.subrange(i as int, i as int + 1) =~= enc_opt_bool(None));
            assert forall|o: Option<bool>|
                #![trigger enc_opt_bool(o)]
                enc_opt_bool(o).is_prefix_of(b@.skip(i as int)) implies o is None by {
                lemma_opt_bool_first(o);
            }
        }
        Some((None, i + 1))
    } else if tag == 1u8 {
        match dec_bool(b, i + 1) {
            None => {
                proof {
                    assert forall|o: Option<bool>|
                        !(#[trigger] enc_opt_bool(o)).is_prefix_of(b@.skip(i as int)) by {
                        if enc_opt_bool(o).is_prefix_of(b@.skip(i as int)) {
                            lemma_opt_bool_first(o);
                            match o {
                                Some(x) => {
                                    lemma_prefix_split(seq![1u8], enc_bool(x), b@.skip(i as int));
                                    lemma_skip_skip(b@, i as int, 1);
                                    assert(enc_bool(x).is_prefix_of(b@.skip(i as int + 1)));
                                }
                                None => {}
                            }
                        }
                    }
                }
                None
            }
            Some((v, j)) => {
                proof {
                    assert(b@.subrange(i as int, i as int + 1) =~= seq![1u8]);
                    lemma_subrange_concat(b@, i as int, i as int + 1, j as int);
                    assert(b@.subrange(i as int, j as int) =~= enc_opt_bool(Some(v)));
                    assert forall|o: Option<bool>|
                        #![trigger enc_opt_bool(o)]
                        enc_opt_bool(o).is_prefix_of(b@.skip(i as int))
                            implies (Some(v) == o && j == i + enc_opt_bool(o).len()) by {
                        lemma_opt_bool_first(o);
                        match o {
                            Some(x) => {
                                lemma_prefix_split(seq![1u8], enc_bool(x), b@.skip(i as int));
                                lemma_skip_skip(b@, i as int, 1);
                                assert(enc_bool(x).is_prefix_of(b@.skip(i as int + 1)));
                            }
                            None => {}
                        }
                    }
                }
                Some((Some(v), j))
            }
        }
    } else {
        proof {
            assert forall|o: Option<bool>|
                !(#[trigger] enc_opt_bool(o)).is_prefix_of(b@.skip(i as int)) by {
                if enc_opt_bool(o).is_prefix_of(b@.skip(i as int)) {
                    lemma_opt_bool_first(o);
                }
            }
        }
        None
    }
}


// ---------------------------------------------------------------------
// Record encodings
// ---------------------------------------------------------------------

/// Anti-rug settings on the wire: four percentages, the lock duration,
/// and the optional lock start.
#[verifier::opaque]
pub open spec fn enc_anti(a: AntiRugSettings) -> Seq<u8> {
    enc_u64(a.max_wallet_percentage as u64)
        + (enc_u64(a.buy_tax_percentage as u64)
        + (enc_u64(a.sell_tax_percentage as u64)
        + (enc_u64(a.liquidity_locked_percentage as u64)
        + (enc_u64(a.lock_duration_blocks)
        + enc_opt_u64(a.lock_start_block)))))
}

/// A balance record on the wire.
pub open spec fn enc_balance(v: BalanceV) -> Seq<u8> {
    enc_str(v.address)
        + (enc_str(v.token)
        + (enc_u64(v.amount)
        + enc_i64(v.updated_at)))
}

/// The trailing fields of a token record on the wire: creator, policy
/// and timestamps.
pub open spec fn enc_ttail(creator: Seq<char>, anti: AntiRugSettings, created_at: i64, updated_at: i64) -> Seq<u8> {
    enc_str(creator)
        + (enc_anti(anti)
        + (enc_i64(created_at)
        + enc_i64(updated_at)))
}

/// A token record on the wire.
pub open spec fn enc_token(v: TokenV) -> Seq<u8> {
    enc_str(v.symbol)
        + (enc_str(v.name)
        + (enc_u64(v.total_supply)
        + enc_ttail(v.creator, v.anti_rug, v.created_at, v.updated_at)))
}

/// A collection record on the wire.
pub open spec fn enc_collection(v: CollectionV) -> Seq<u8> {
    enc_str(v.id)
        + (enc_str(v.name)
        + (enc_str(v.creator)
        + (enc_str(v.description)
        + (enc_i64(v.created_at)
        + enc_i64(v.updated_at)))))
}

/// The trailing fields of an NFT record on the wire: owner, metadata
/// and timestamps.
pub open spec fn enc_ntail(owner: Seq<char>, metadata: Option<Seq<char>>, created_at: i64, updated_at: i64) -> Seq<u8> {
    enc_str(owner)
        + (enc_opt_str(metadata)
        + (enc_i64(created_at)
        + enc_i64(updated_at)))
}

/// An NFT record on the wire.
pub open spec fn enc_nft(v: NftV) -> Seq<u8> {
    enc_str(v.id)
        + (enc_str(v.collection_id)
        + (enc_str(v.name)
        + enc_ntail(v.owner, v.metadata, v.created_at, v.updated_at)))
}

/// Append the encoding of anti-rug settings.
pub fn push_anti(out: &mut Vec<u8>, a: &AntiRugSettings)
    ensures
        final(out)@ == old(out)@ + enc_anti(*a),
{
    proof { reveal(enc_anti); }
    push_u64(out, a.max_wallet_percentage as u64);
    push_u64(out, a.buy_tax_percentage as u64);
    push_u64(out, a.sell_tax_percentage as u64);
    push_u64(out, a.liquidity_locked_percentage as u64);
    push_u64(out, a.lock_duration_blocks);
    push_opt_u64(out, &a.lock_start_block);
    assert(final(out)@ =~= old(out)@ + enc_anti(*a));
}

/// Encode a balance record.
pub fn encode_balance(v: &Balance) -> (r: Vec<u8>)
    ensures
        r@ == enc_balance(v@),
{
    let mut out: Vec<u8> = Vec::new();
    push_str(&mut out, v.address.as_str());
    push_str(&mut out, v.token.as_str());
    push_u64(&mut out, v.amount);
    push_i64(&mut out, v.updated_at);
    assert(out@ =~= enc_balance(v@));
    out
}

/// Encode a token record.
pub fn encode_token(v: &Token) -> (r: Vec<u8>)
    ensures
        r@ == enc_token(v@),
{
    let mut out: Vec<u8> = Vec::new();
    push_str(&mut out, v.symbol.as_str());
    push_str(&mut out, v.name.as_str());
    push_u64(&mut out, v.total_supply);
    push_str(&mut out, v.creator.as_str());
    push_anti(&mut out, &v.anti_rug);
    push_i64(&mut out, v.created_at);
    push_i64(&mut out, v.updated_at);
    assert(out@ =~= enc_token(v@));
    out
}

/// Encode a collection record.
pub fn encode_collection(v: &Collection) -> (r: Vec<u8>)
    ensures
        r@ == enc_collection(v@),
{
    let mut out: Vec<u8> = Vec::new();
    push_str(&mut out, v.id.as_str());
    push_str(&mut out, v.name.as_str());
    push_str(&mut out, v.creator.as_str());
    push_str(&mut out, v.description.as_str());
    push_i64(&mut out, v.created_at);
    push_i64(&mut out, v.updated_at);
    assert(out@ =~= enc_collection(v@));
    out
}

/// Encode an NFT record.
pub fn encode_nft(v: &Nft) -> (r: Vec<u8>)
    ensures
        r@ == enc_nft(v@),
{
    let mut out: Vec<u8> = Vec::new();
    push_str(&mut out, v.id.as_str());
    push_str(&mut out, v.collection_id.as_str());
    push_str(&mut out, v.name.as_str());
    push_str(&mut out, v.owner.as_str());
    push_opt_str(&mut out, &v.metadata);
    push_i64(&mut out, v.created_at);
    push_i64(&mut out, v.updated_at);
    assert(out@ =~= enc_nft(v@));
    out
}

/// Decode anti-rug settings at offset `i`.
#[verifier::rlimit(100)]
pub fn dec_anti(b: &Vec<u8>, i: usize) -> (r: Option<(AntiRugSettings, usize)>)
    requires
        i <= b@.len(),
    ensures
        r matches Some((v, j)) ==> i <= j <= b@.len()
            && b@.subrange(i as int, j as int) == enc_anti(v),
        forall|a: AntiRugSettings| #![trigger enc_anti(a)]
            enc_anti(a).is_prefix_of(b@.skip(i as int))
                ==> (r matches Some((v, j)) && v == a && j == i + enc_anti(a).len()),
{
    let ghost s = b@.skip(i as int);
    proof {
        reveal(enc_anti);
        assert forall|a: AntiRugSettings|
            #![trigger enc_anti(a)]
            enc_anti(a).is_prefix_of(s) implies anti_parts(a, s) by {
            lemma_anti_parts(a, s);
        }
    }
    let (w1, i1) = match dec_u64(b, i) { None => { return None; }, Some(x) => x };
    let (w2, i2) = match dec_u64(b, i1) { None => { proof { lemma_anti_skips(b@, i as int); } return None; }, Some(x) => x };
    let (w3, i3) = match dec_u64(b, i2) { None => { proof { lemma_anti_skips(b@, i as int); } return None; }, Some(x) => x };
    let (w4, i4) = match dec_u64(b, i3) { None => { proof { lemma_anti_skips(b@, i as int); } return None; }, Some(x) => x };
    let (dur, i5) = match dec_u64(b, i4) { None => { proof { lemma_anti_skips(b@, i as int); } return None; }, Some(x) => x };
    let (start, i6) = match dec_opt_u64(b, i5) { None => { proof { lemma_anti_skips(b@, i as int); } return None; }, Some(x) => x };
    if w1 > 255 || w2 > 255 || w3 > 255 || w4 > 255 {
        proof { lemma_anti_skips(b@, i as int); }
        return None;
    }
    let v = AntiRugSettings {
        max_wallet_percentage: w1 as u8,
        buy_tax_percentage: w2 as u8,
        sell_tax_percentage: w3 as u8,
        liquidity_locked_percentage: w4 as u8,
        lock_duration_blocks: dur,
        lock_start_block: start,
    };
    proof {
        lemma_anti_skips(b@, i as int);
        lemma_subrange_concat(b@, i as int, i5 as int, i6 as int);
        lemma_subrange_concat(b@, i as int, i4 as int, i5 as int);
        lemma_subrange_concat(b@, i as int, i3 as int, i4 as int);
        lemma_subrange_concat(b@, i as int, i2 as int, i3 as int);
        lemma_subrange_concat(b@, i as int, i1 as int, i2 as int);
        assert(b@.subrange(i as int, i6 as int) =~= enc_anti(v));
    }
    Some((v, i6))
}

/// The positions of the fields inside an anti-rug encoding that is a
/// prefix of `s`.
spec fn anti_parts(a: AntiRugSettings, s: Seq<u8>) -> bool {
    &&& enc_u64(a.max_wallet_percentage as u64).is_prefix_of(s)
    &&& enc_u64(a.buy_tax_percentage as u64).is_prefix_of(s.skip(8))
    &&& enc_u64(a.sell_tax_percentage as u64).is_prefix_of(s.skip(16))
    &&& enc_u64(a.liquidity_locked_percentage as u64).is_prefix_of(s.skip(24))
    &&& enc_u64(a.lock_duration_blocks).is_prefix_of(s.skip(32))
    &&& enc_opt_u64(a.lock_start_block).is_prefix_of(s.skip(40))
    &&& enc_anti(a).len() == 40 + enc_opt_u64(a.lock_start_block).len()
}

proof fn lemma_anti_parts(a: AntiRugSettings, s: Seq<u8>)
    requires
        enc_anti(a).is_prefix_of(s),
    ensures
        anti_parts(a, s),
{
    let e1 = enc_u64(a.max_wallet_percentage as u64);
    let e2 = enc_u64(a.buy_tax_percentage as u64);
    let e3 = enc_u64(a.sell_tax_percentage as u64);
    let e4 = enc_u64(a.liquidity_locked_percentage as u64);
    let e5 = enc_u64(a.lock_duration_blocks);
    let e6 = enc_opt_u64(a.lock_start_block);
    reveal(enc_anti);
    lemma_enc_u64_len(a.max_wallet_percentage as u64);
    lemma_enc_u64_len(a.buy_tax_percentage as u64);
    lemma_enc_u64_len(a.sell_tax_percentage as u64);
    lemma_enc_u64_len(a.liquidity_locked_percentage as u64);
    lemma_enc_u64_len(a.lock_duration_blocks);
    lemma_prefix_split(e1, e2 + (e3 + (e4 + (e5 + e6))), s);
    lemma_prefix_split(e2, e3 + (e4 + (e5 + e6)), s.skip(8));
    lemma_skip_skip(s, 8, 8);
    lemma_prefix_split(e3, e4 + (e5 + e6), s.skip(16));
    lemma_skip_skip(s, 16, 8);
    lemma_prefix_split(e4, e5 + e6, s.skip(24));
    lemma_skip_skip(s, 24, 8);
    lemma_prefix_split(e5, e6, s.skip(32));
    lemma_skip_skip(s, 32, 8);
}

/// Chains the skip equalities that relate the positions reached by the
/// anti-rug field decoders back to skips of the whole buffer.
proof fn lemma_anti_skips(b: Seq<u8>, i: int)
    requires
        0 <= i <= b.len(),
    ensures
        forall|k: int| 0 <= k && i + k <= b.len()
            ==> #[trigger] b.skip(i).skip(k) == b.skip(i + k),
{
    assert forall|k: int| 0 <= k && i + k <= b.len()
        implies #[trigger] b.skip(i).skip(k) == b.skip(i + k) by {
        lemma_skip_skip(b, i, k);
    }
}


/// The positions of the fields inside a balance encoding that is a
/// prefix of `s`.
spec fn balance_parts(v: BalanceV, s: Seq<u8>) -> bool {
    let e1 = enc_str(v.address);
    let e2 = enc_str(v.token);
    let o1 = e1.len() as int;
    let o2 = o1 + e2.len() as int;
    &&& e1.is_prefix_of(s)
    &&& e2.is_prefix_of(s.skip(o1))
    &&& enc_u64(v.amount).is_prefix_of(s.skip(o2))
    &&& enc_i64(v.updated_at).is_prefix_of(s.skip(o2 + 8))
    &&& enc_balance(v).len() == o2 + 16
}

proof fn lemma_balance_parts(v: BalanceV, s: Seq<u8>)
    requires
        enc_balance(v).is_prefix_of(s),
    ensures
        balance_parts(v, s),
{
    let e1 = enc_str(v.address);
    let e2 = enc_str(v.token);
    let e3 = enc_u64(v.amount);
    let e4 = enc_i64(v.updated_at);
    let o1 = e1.len() as int;
    let o2 = o1 + e2.len() as int;
    lemma_enc_u64_len(v.amount);
    lemma_enc_u64_len(((v.updated_at - i64::MIN) as u64));
    lemma_prefix_split(e1, e2 + (e3 + e4), s);
    lemma_prefix_split(e2, e3 + e4, s.skip(o1));
    lemma_skip_skip(s, o1, e2.len() as int);
    lemma_prefix_split(e3, e4, s.skip(o2));
    lemma_skip_skip(s, o2, 8);
}

/// Decode a balance record at offset `i`.
#[verifier::rlimit(100)]
pub fn dec_balance(b: &Vec<u8>, i: usize) -> (r: Option<(Balance, usize)>)
    requires
        i <= b@.len(),
    ensures
        r matches Some((v, j)) ==> i <= j <= b@.len()
            && b@.subrange(i as int, j as int) == enc_balance(v@),
        forall|bv: BalanceV| #![trigger enc_balance(bv)]
            enc_balance(bv).is_prefix_of(b@.skip(i as int))
                ==> (r matches Some((v, j)) && v@ == bv && j == i + enc_balance(bv).len()),
{
    let ghost s = b@.skip(i as int);
    proof {
        assert forall|bv: BalanceV|
            #![trigger enc_balance(bv)]
            enc_balance(bv).is_prefix_of(s) implies balance_parts(bv, s) by {
            lemma_balance_parts(bv, s);
        }
        lemma_anti_skips(b@, i as int);
    }
    let (address, i1) = match dec_str(b, i) { None => { return None; }, Some(x) => x };
    let (token, i2) = match dec_str(b, i1) { None => { return None; }, Some(x) => x };
    let (amount, i3) = match dec_u64(b, i2) { None => { return None; }, Some(x) => x };
    let (updated_at, i4) = match dec_i64(b, i3) { None => { return None; }, Some(x) => x };
    let v = Balance::new(Address::new(address), token, amount, updated_at);
    proof {
        lemma_subrange_concat(b@, i as int, i3 as int, i4 as int);
        lemma_subrange_concat(b@, i as int, i2 as int, i3 as int);
        lemma_subrange_concat(b@, i as int, i1 as int, i2 as int);
        assert(b@.subrange(i as int, i4 as int) =~= enc_balance(v@));
    }
    Some((v, i4))
}


/// The positions of the fields inside a collection encoding that is a
/// prefix of `s`.
spec fn collection_parts(v: CollectionV, s: Seq<u8>) -> bool {
    let o1 = enc_str(v.id).len() as int;
    let o2 = o1 + enc_str(v.name).len() as int;
    let o3 = o2 + enc_str(v.creator).len() as int;
    let o4 = o3 + enc_str(v.description).len() as int;
    &&& enc_str(v.id).is_prefix_of(s)
    &&& enc_str(v.name).is_prefix_of(s.skip(o1))
    &&& enc_str(v.creator).is_prefix_of(s.skip(o2))
    &&& enc_str(v.description).is_prefix_of(s.skip(o3))
    &&& enc_i64(v.created_at).is_prefix_of(s.skip(o4))
    &&& enc_i64(v.updated_at).is_prefix_of(s.skip(o4 + 8))
    &&& enc_collection(v).len() == o4 + 16
}

proof fn lemma_collection_parts(v: CollectionV, s: Seq<u8>)
    requires
        enc_collection(v).is_prefix_of(s),
    ensures
        collection_parts(v, s),
{
    let e1 = enc_str(v.id);
    let e2 = enc_str(v.name);
    let e3 = enc_str(v.creator);
    let e4 = enc_str(v.description);
    let e5 = enc_i64(v.created_at);
    let e6 = enc_i64(v.updated_at);
    let o1 = e1.len() as int;
    let o2 = o1 + e2.len() as int;
    let o3 = o2 + e3.len() as int;
    let o4 = o3 + e4.len() as int;
    lemma_enc_u64_len(((v.created_at - i64::MIN) as u64));
    lemma_enc_u64_len(((v.updated_at - i64::MIN) as u64));
    lemma_prefix_split(e1, e2 + (e3 + (e4 + (e5 + e6))), s);
    lemma_prefix_split(e2, e3 + (e4 + (e5 + e6)), s.skip(o1));
    lemma_skip_skip(s, o1, e2.len() as int);
    lemma_prefix_split(e3, e4 + (e5 + e6), s.skip(o2));
    lemma_skip_skip(s, o2, e3.len() as int);
    lemma_prefix_split(e4, e5 + e6, s.skip(o3));
    lemma_skip_skip(s, o3, e4.len() as int);
    lemma_prefix_split(e5, e6, s.skip(o4));
    lemma_skip_skip(s, o4, 8);
}

/// Absolute positions of the collection fields when an encoding
/// starts at offset `i` of `b`.
proof fn lemma_collection_offsets(v: CollectionV, b: Seq<u8>, i: int)
    requires
        0 <= i <= b.len(),
        enc_collection(v).is_prefix_of(b.skip(i)),
    ensures
        ({
            let o1 = i + enc_str(v.id).len() as int;
            let o2 = o1 + enc_str(v.name).len() as int;
            let o3 = o2 + enc_str(v.creator).len() as int;
            let o4 = o3 + enc_str(v.description).len() as int;
            &&& enc_str(v.id).is_prefix_of(b.skip(i))
            &&& enc_str(v.name).is_prefix_of(b.skip(o1))
            &&& enc_str(v.creator).is_prefix_of(b.skip(o2))
            &&& enc_str(v.description).is_prefix_of(b.skip(o3))
            &&& enc_i64(v.created_at).is_prefix_of(b.skip(o4))
            &&& enc_i64(v.updated_at).is_prefix_of(b.skip(o4 + 8))
            &&& enc_collection(v).len() == o4 + 16 - i
        }),
{
    let s = b.skip(i);
    lemma_collection_parts(v, s);
    let o1 = enc_str(v.id).len() as int;
    let o2 = o1 + enc_str(v.name).len() as int;
    let o3 = o2 + enc_str(v.creator).len() as int;
    let o4 = o3 + enc_str(v.description).len() as int;
    lemma_skip_skip(b, i, o1);
    lemma_skip_skip(b, i, o2);
    lemma_skip_skip(b, i, o3);
    lemma_skip_skip(b, i, o4);
    lemma_skip_skip(b, i, o4 + 8);
}

/// Decode a collection record at offset `i`.
#[verifier::rlimit(100)]
#[verifier::spinoff_prover]
pub fn dec_collection(b: &Vec<u8>, i: usize) -> (r: Option<(Collection, usize)>)
    requires
        i <= b@.len(),
    ensures
        r matches Some((v, j)) ==> i <= j <= b@.len()
            && b@.subrange(i as int, j as int) == enc_collection(v@),
        forall|cv: CollectionV| #![trigger enc_collection(cv)]
            enc_collection(cv).is_prefix_of(b@.skip(i as int))
                ==> (r matches Some((v, j)) && v@ == cv && j == i + enc_collection(cv).len()),
{
    let ghost s = b@.skip(i as int);
    let (id, i1) = match dec_str(b, i) { None => {
        proof { assert forall|cv: CollectionV| !(#[trigger] enc_collection(cv)).is_prefix_of(s) by {
            if enc_collection(cv).is_prefix_of(s) { lemma_collection_offsets(cv, b@, i as int); } } }
        return None; }, Some(x) => x };
    let (name, i2) = match dec_str(b, i1) { None => {
        proof { assert forall|cv: CollectionV| !(#[trigger] enc_collection(cv)).is_prefix_of(s) by {
            if enc_collection(cv).is_prefix_of(s) { lemma_collection_offsets(cv, b@, i as int); } } }
        return None; }, Some(x) => x };
    let (creator, i3) = match dec_str(b, i2) { None => {
        proof { assert forall|cv: CollectionV| !(#[trigger] enc_collection(cv)).is_prefix_of(s) by {
            if enc_collection(cv).is_prefix_of(s) { lemma_collection_offsets(cv, b@, i as int); } } }
        return None; }, Some(x) => x };
    let (description, i4) = match dec_str(b, i3) { None => {
        proof { assert forall|cv: CollectionV| !(#[trigger] enc_collection(cv)).is_prefix_of(s) by {
            if enc_collection(cv).is_prefix_of(s) { lemma_collection_offsets(cv, b@, i as int); } } }
        return None; }, Some(x) => x };
    let (created_at, i5) = match dec_i64(b, i4) { None => {
        proof { assert forall|cv: CollectionV| !(#[trigger] enc_collection(cv)).is_prefix_of(s) by {
            if enc_collection(cv).is_prefix_of(s) { lemma_collection_offsets(cv, b@, i as int); } } }
        return None; }, Some(x) => x };
    let (updated_at, i6) = match dec_i64(b, i5) { None => {
        proof { assert forall|cv: CollectionV| !(#[trigger] enc_collection(cv)).is_prefix_of(s) by {
            if enc_collection(cv).is_prefix_of(s) { lemma_collection_offsets(cv, b@, i as int); } } }
        return None; }, Some(x) => x };
    let v = Collection::new(id, name, Address::new(creator), description, created_at);
    let v = Collection { updated_at, ..v };
    proof {
        assert(b@.subrange(i as int, i6 as int) == enc_collection(v@)) by {
            lemma_subrange_concat(b@, i as int, i5 as int, i6 as int);
            lemma_subrange_concat(b@, i as int, i4 as int, i5 as int);
            lemma_subrange_concat(b@, i as int, i3 as int, i4 as int);
            lemma_subrange_concat(b@, i as int, i2 as int, i3 as int);
            lemma_subrange_concat(b@, i as int, i1 as int, i2 as int);
            assert(b@.subrange(i as int, i6 as int) =~= enc_collection(v@));
        }
        assert forall|cv: CollectionV|
            #![trigger enc_collection(cv)]
            enc_collection(cv).is_prefix_of(s)
                implies (v@ == cv && i6 == i + enc_collection(cv).len()) by {
            lemma_collection_offsets(cv, b@, i as int);
        }
    }
    Some((v, i6))
}

/// Decode the trailing token fields at offset `i`.
#[verifier::rlimit(100)]
fn dec_ttail(b: &Vec<u8>, i: usize) -> (r: Option<((Address, AntiRugSettings, i64, i64), usize)>)
    requires
        i <= b@.len(),
    ensures
        r matches Some((v, j)) ==> i <= j <= b@.len()
            && b@.subrange(i as int, j as int) == enc_ttail(v.0@, v.1, v.2, v.3),
        forall|cr: Seq<char>, a: AntiRugSettings, c: i64, u: i64|
            #![trigger enc_ttail(cr, a, c, u)]
            enc_ttail(cr, a, c, u).is_prefix_of(b@.skip(i as int))
                ==> (r matches Some((v, j)) && v.0@ == cr && v.1 == a && v.2 == c && v.3 == u
                    && j == i + enc_ttail(cr, a, c, u).len()),
{
    let ghost s = b@.skip(i as int);
    proof {
        assert forall|cr: Seq<char>, a: AntiRugSettings, c: i64, u: i64|
            #![trigger enc_ttail(cr, a, c, u)]
            enc_ttail(cr, a, c, u).is_prefix_of(s) implies ({
                let o1 = i + enc_str(cr).len() as int;
                let o2 = o1 + enc_anti(a).len() as int;
                &&& enc_str(cr).is_prefix_of(b@.skip(i as int))
                &&& enc_anti(a).is_prefix_of(b@.skip(o1))
                &&& enc_i64(c).is_prefix_of(b@.skip(o2))
                &&& enc_i64(u).is_prefix_of(b@.skip(o2 + 8))
                &&& enc_ttail(cr, a, c, u).len() == o2 + 16 - i
            }) by {
            let e1 = enc_str(cr);
            let e2 = enc_anti(a);
            let e3 = enc_i64(c);
            let e4 = enc_i64(u);
            let o1 = e1.len() as int;
            let o2 = o1 + e2.len() as int;
            lemma_enc_u64_len(((c - i64::MIN) as u64));
            lemma_enc_u64_len(((u - i64::MIN) as u64));
            lemma_prefix_split(e1, e2 + (e3 + e4), s);
            lemma_prefix_split(e2, e3 + e4, s.skip(o1));
            lemma_skip_skip(s, o1, e2.len() as int);
            lemma_prefix_split(e3, e4, s.skip(o2));
            lemma_skip_skip(s, o2, 8);
            lemma_skip_skip(b@, i as int, o1);
            lemma_skip_skip(b@, i as int, o2);
            lemma_skip_skip(b@, i as int, o2 + 8);
        }
    }
    let (creator, i1) = match dec_str(b, i) { None => { return None; }, Some(x) => x };
    let (anti, i2) = match dec_anti(b, i1) { None => { return None; }, Some(x) => x };
    let (created_at, i3) = match dec_i64(b, i2) { None => { return None; }, Some(x) => x };
    let (updated_at, i4) = match dec_i64(b, i3) { None => { return None; }, Some(x) => x };
    let v = (Address::new(creator), anti, created_at, updated_at);
    proof {
        lemma_subrange_concat(b@, i as int, i3 as int, i4 as int);
        lemma_subrange_concat(b@, i as int, i2 as int, i3 as int);
        lemma_subrange_concat(b@, i as int, i1 as int, i2 as int);
        assert(b@.subrange(i as int, i4 as int) =~= enc_ttail(v.0@, v.1, v.2, v.3));
    }
    Some((v, i4))
}

/// Decode a token record at offset `i`.
#[verifier::rlimit(100)]
pub fn dec_token(b: &Vec<u8>, i: usize) -> (r: Option<(Token, usize)>)
    requires
        i <= b@.len(),
    ensures
        r matches Some((v, j)) ==> i <= j <= b@.len()
            && b@.subrange(i as int, j as int) == enc_token(v@),
        forall|tv: TokenV| #![trigger enc_token(tv)]
            enc_token(tv).is_prefix_of(b@.skip(i as int))
                ==> (r matches Some((v, j)) && v@ == tv && j == i + enc_token(tv).len()),
{
    let ghost s = b@.skip(i as int);
    proof {
        assert forall|tv: TokenV|
            #![trigger enc_token(tv)]
            enc_token(tv).is_prefix_of(s) implies ({
                let o1 = i + enc_str(tv.symbol).len() as int;
                let o2 = o1 + enc_str(tv.name).len() as int;
                let o3 = o2 + 8;
                &&& enc_str(tv.symbol).is_prefix_of(b@.skip(i as int))
                &&& enc_str(tv.name).is_prefix_of(b@.skip(o1))
                &&& enc_u64(tv.total_supply).is_prefix_of(b@.skip(o2))
                &&& enc_ttail(tv.creator, tv.anti_rug, tv.created_at, tv.updated_at).is_prefix_of(b@.skip(o3))
                &&& enc_token(tv).len() == o3 - i + enc_ttail(tv.creator, tv.anti_rug, tv.created_at, tv.updated_at).len()
            }) by {
            let e1 = enc_str(tv.symbol);
            let e2 = enc_str(tv.name);
            let e3 = enc_u64(tv.total_supply);
            let e4 = enc_ttail(tv.creator, tv.anti_rug, tv.created_at, tv.updated_at);
            let o1 = e1.len() as int;
            let o2 = o1 + e2.len() as int;
            lemma_enc_u64_len(tv.total_supply);
            lemma_prefix_split(e1, e2 + (e3 + e4), s);
            lemma_prefix_split(e2, e3 + e4, s.skip(o1));
            lemma_skip_skip(s, o1, e2.len() as int);
            lemma_prefix_split(e3, e4, s.skip(o2));
            lemma_skip_skip(s, o2, 8);
            lemma_skip_skip(b@, i as int, o1);
            lemma_skip_skip(b@, i as int, o2);
            lemma_skip_skip(b@, i as int, o2 + 8);
        }
    }
    let (symbol, i1) = match dec_str(b, i) { None => { return None; }, Some(x) => x };
    let (name, i2) = match dec_str(b, i1) { None => { return None; }, Some(x) => x };
    let (total_supply, i3) = match dec_u64(b, i2) { None => { return None; }, Some(x) => x };
    let (tail, i4) = match dec_ttail(b, i3) { None => { return None; }, Some(x) => x };
    let (creator, anti_rug, created_at, updated_at) = tail;
    let v = Token::new(symbol, name, total_supply, creator, anti_rug, created_at);
    let v = Token { updated_at, ..v };
    proof {
        lemma_subrange_concat(b@, i as int, i3 as int, i4 as int);
        lemma_subrange_concat(b@, i as int, i2 as int, i3 as int);
        lemma_subrange_concat(b@, i as int, i1 as int, i2 as int);
        assert(b@.subrange(i as int, i4 as int) =~= enc_token(v@));
    }
    Some((v, i4))
}

/// Decode the trailing NFT fields at offset `i`.
#[verifier::rlimit(100)]
fn dec_ntail(b: &Vec<u8>, i: usize) -> (r: Option<((Address, Option<String>, i64, i64), usize)>)
    requires
        i <= b@.len(),
    ensures
        r matches Some((v, j)) ==> i <= j <= b@.len()
            && b@.subrange(i as int, j as int) == enc_ntail(v.0@, vopt(v.1), v.2, v.3),
        forall|ow: Seq<char>, md: Option<Seq<char>>, c: i64, u: i64|
            #![trigger enc_ntail(ow, md, c, u)]
            enc_ntail(ow, md, c, u).is_prefix_of(b@.skip(i as int))
                ==> (r matches Some((v, j)) && v.0@ == ow && vopt(v.1) == md && v.2 == c && v.3 == u
                    && j == i + enc_ntail(ow, md, c, u).len()),
{
    let ghost s = b@.skip(i as int);
    proof {
        assert forall|ow: Seq<char>, md: Option<Seq<char>>, c: i64, u: i64|
            #![trigger enc_ntail(ow, md, c, u)]
            enc_ntail(ow, md, c, u).is_prefix_of(s) implies ({
                let o1 = i + enc_str(ow).len() as int;
                let o2 = o1 + enc_opt_str(md).len() as int;
                &&& enc_str(ow).is_prefix_of(b@.skip(i as int))
                &&& enc_opt_str(md).is_prefix_of(b@.skip(o1))
                &&& enc_i64(c).is_prefix_of(b@.skip(o2))
                &&& enc_i64(u).is_prefix_of(b@.skip(o2 + 8))
                &&& enc_ntail(ow, md, c, u).len() == o2 + 16 - i
            }) by {
            let e1 = enc_str(ow);
            let e2 = enc_opt_str(md);
            let e3 = enc_i64(c);
            let e4 = enc_i64(u);
            let o1 = e1.len() as int;
            let o2 = o1 + e2.len() as int;
            lemma_enc_u64_len(((c - i64::MIN) as u64));
            lemma_enc_u64_len(((u - i64::MIN) as u64));
            lemma_prefix_split(e1, e2 + (e3 + e4), s);
            lemma_prefix_split(e2, e3 + e4, s.skip(o1));
            lemma_skip_skip(s, o1, e2.len() as int);
            lemma_prefix_split(e3, e4, s.skip(o2));
            lemma_skip_skip(s, o2, 8);
            lemma_skip_skip(b@, i as int, o1);
            lemma_skip_skip(b@, i as int, o2);
            lemma_skip_skip(b@, i as int, o2 + 8);
        }
    }
    let (owner, i1) = match dec_str(b, i) { None => { return None; }, Some(x) => x };
    let (metadata, i2) = match dec_opt_str(b, i1) { None => { return None; }, Some(x) => x };
    let (created_at, i3) = match dec_i64(b, i2) { None => { return None; }, Some(x) => x };
    let (updated_at, i4) = match dec_i64(b, i3) { None => { return None; }, Some(x) => x };
    let v = (Address::new(owner), metadata, created_at, updated_at);
    proof {
        lemma_subrange_concat(b@, i as int, i3 as int, i4 as int);
        lemma_subrange_concat(b@, i as int, i2 as int, i3 as int);
        lemma_subrange_concat(b@, i as int, i1 as int, i2 as int);
        assert(b@.subrange(i as int, i4 as int) =~= enc_ntail(v.0@, vopt(v.1), v.2, v.3));
    }
    Some((v, i4))
}

/// Decode an NFT record at offset `i`.
#[verifier::rlimit(100)]
pub fn dec_nft(b: &Vec<u8>, i: usize) -> (r: Option<(Nft, usize)>)
    requires
        i <= b@.len(),
    ensures
        r matches Some((v, j)) ==> i <= j <= b@.len()
            && b@.subrange(i as int, j as int) == enc_nft(v@),
        forall|nv: NftV| #![trigger enc_nft(nv)]
            enc_nft(nv).is_prefix_of(b@.skip(i as int))
                ==> (r matches Some((v, j)) && v@ == nv && j == i + enc_nft(nv).len()),
{
    let ghost s = b@.skip(i as int);
    proof {
        assert forall|nv: NftV|
            #![trigger enc_nft(nv)]
            enc_nft(nv).is_prefix_of(s) implies ({
                let o1 = i + enc_str(nv.id).len() as int;
                let o2 = o1 + enc_str(nv.collection_id).len() as int;
                let o3 = o2 + enc_str(nv.name).len() as int;
                &&& enc_str(nv.id).is_prefix_of(b@.skip(i as int))
                &&& enc_str(nv.collection_id).is_prefix_of(b@.skip(o1))
                &&& enc_str(nv.name).is_prefix_of(b@.skip(o2))
                &&& enc_ntail(nv.owner, nv.metadata, nv.created_at, nv.updated_at).is_prefix_of(b@.skip(o3))
                &&& enc_nft(nv).len() == o3 - i + enc_ntail(nv.owner, nv.metadata, nv.created_at, nv.updated_at).len()
            }) by {
            let e1 = enc_str(nv.id);
            let e2 = enc_str(nv.collection_id);
            let e3 = enc_str(nv.name);
            let e4 = enc_ntail(nv.owner, nv.metadata, nv.created_at, nv.updated_at);
            let o1 = e1.len() as int;
            let o2 = o1 + e2.len() as int;
            let o3 = o2 + e3.len() as int;
            lemma_prefix_split(e1, e2 + (e3 + e4), s);
            lemma_prefix_split(e2, e3 + e4, s.skip(o1));
            lemma_skip_skip(s, o1, e2.len() as int);
            lemma_prefix_split(e3, e4, s.skip(o2));
            lemma_skip_skip(s, o2, e3.len() as int);
            lemma_skip_skip(b@, i as int, o1);
            lemma_skip_skip(b@, i as int, o2);
            lemma_skip_skip(b@, i as int, o3);
        }
    }
    let (id, i1) = match dec_str(b, i) { None => { return None; }, Some(x) => x };
    let (collection_id, i2) = match dec_str(b, i1) { None => { return None; }, Some(x) => x };
    let (name, i3) = match dec_str(b, i2) { None => { return None; }, Some(x) => x };
    let (tail, i4) = match dec_ntail(b, i3) { None => { return None; }, Some(x) => x };
    let (owner, metadata, created_at, updated_at) = tail;
    let v = Nft::new(id, collection_id, name, owner, metadata, created_at);
    let v = Nft { updated_at, ..v };
    proof {
        lemma_subrange_concat(b@, i as int, i3 as int, i4 as int);
        lemma_subrange_concat(b@, i as int, i2 as int, i3 as int);
        lemma_subrange_concat(b@, i as int, i1 as int, i2 as int);
        assert(b@.subrange(i as int, i4 as int) =~= enc_nft(v@));
    }
    Some((v, i4))
}


// ---------------------------------------------------------------------
// Payloads, transactions, results and blocks
//
// These records are written and read back with exact soundness: a
// decoded value is precisely what the consumed bytes encode, so a
// stored record that decodes yields the stored fields unchanged.
// ---------------------------------------------------------------------

/// An optional anti-rug record: a presence byte, then the record.
pub open spec fn enc_opt_anti(o: Option<AntiRugSettings>) -> Seq<u8> {
    match o {
        None => seq![0u8],
        Some(a) => seq![1u8] + enc_anti(a),
    }
}

/// Append the encoding of an optional anti-rug record.
pub fn push_opt_anti(out: &mut Vec<u8>, o: &Option<AntiRugSettings>)
    ensures
        final(out)@ == old(out)@ + enc_opt_anti(*o),
{
    match o {
        None => {
            out.push(0u8);
            assert(final(out)@ =~= old(out)@ + enc_opt_anti(*o));
        }
        Some(a) => {
            out.push(1u8);
            push_anti(out, a);
            assert(final(out)@ =~= old(out)@ + enc_opt_anti(*o));
        }
    }
}

/// Decode an optional anti-rug record at offset `i`.
pub fn dec_opt_anti(b: &Vec<u8>, i: usize) -> (r: Option<(Option<AntiRugSettings>, usize)>)
    requires
        i <= b@.len(),
    ensures
        r matches Some((v, j)) ==> i <= j <= b@.len()
            && b@.subrange(i as int, j as int) == enc_opt_anti(v),
{
    if i >= b.len() {
        return None;
    }
    let tag = b[i];
    if tag == 0u8 {
        proof {
            assert(b@.subrange(i as int, i as int + 1) =~= enc_opt_anti(None));
        }
        Some((None, i + 1))
    } else if tag == 1u8 {
        match dec_anti(b, i + 1) {
            None => None,
            Some((a, j)) => {
                proof {
                    assert(b@.subrange(i as int, i as int + 1) =~= seq![1u8]);
                    lemma_subrange_concat(b@, i as int, i as int + 1, j as int);
                    assert(b@.subrange(i as int, j as int) =~= enc_opt_anti(Some(a)));
                }
                Some((Some(a), j))
            }
        }
    } else {
        None
    }
}

/// The first payload group on the wire.
#[verifier::opaque]
pub open spec fn enc_pay1(name: Option<Seq<char>>, symbol: Option<Seq<char>>, supply: Option<u64>, creator: Option<Seq<char>>, token: Option<Seq<char>>) -> Seq<u8> {
    enc_opt_str(name) + (enc_opt_str(symbol) + (enc_opt_u64(supply) + (enc_opt_str(creator) + enc_opt_str(token))))
}

/// The second payload group on the wire.
#[verifier::opaque]
pub open spec fn enc_pay2(amount: Option<u64>, tax: Option<u64>, from: Option<Seq<char>>, to: Option<Seq<char>>, buyer: Option<Seq<char>>) -> Seq<u8> {
    enc_opt_u64(amount) + (enc_opt_u64(tax) + (enc_opt_str(from) + (enc_opt_str(to) + enc_opt_str(buyer))))
}

/// The third payload group on the wire.
#[verifier::opaque]
pub open spec fn enc_pay3(seller: Option<Seq<char>>, duration_blocks: Option<u64>, lock_start_block: Option<u64>, lock_duration_blocks: Option<u64>, locked_by: Option<Seq<char>>) -> Seq<u8> {
    enc_opt_str(seller) + (enc_opt_u64(duration_blocks) + (enc_opt_u64(lock_start_block) + (enc_opt_u64(lock_duration_blocks) + enc_opt_str(locked_by))))
}

/// The fourth payload group on the wire.
#[verifier::opaque]
pub open spec fn enc_pay4(collection: Option<Seq<char>>, collection_id: Option<Seq<char>>, nft_id: Option<Seq<char>>, owner: Option<Seq<char>>, burned_by: Option<Seq<char>>) -> Seq<u8> {
    enc_opt_str(collection) + (enc_opt_str(collection_id) + (enc_opt_str(nft_id) + (enc_opt_str(owner) + enc_opt_str(burned_by))))
}

/// The fifth payload group on the wire.
#[verifier::opaque]
pub open spec fn enc_pay5(updated_by: Option<Seq<char>>, metadata: Option<Seq<char>>, description: Option<Seq<char>>, address: Option<Seq<char>>, is_valid: Option<bool>) -> Seq<u8> {
    enc_opt_str(updated_by) + (enc_opt_str(metadata) + (enc_opt_str(description) + (enc_opt_str(address) + enc_opt_bool(is_valid))))
}

/// The sixth payload group on the wire.
#[verifier::opaque]
pub open spec fn enc_pay6(data: Option<Seq<char>>, hash: Option<Seq<char>>, public_key: Option<Seq<char>>, private_key: Option<Seq<char>>, anti_rug: Option<AntiRugSettings>) -> Seq<u8> {
    enc_opt_str(data) + (enc_opt_str(hash) + (enc_opt_str(public_key) + (enc_opt_str(private_key) + enc_opt_anti(anti_rug))))
}

/// A payload on the wire: the six field groups in order.
#[verifier::opaque]
pub open spec fn enc_payload(p: PayloadV) -> Seq<u8> {
    enc_pay1(p.name, p.symbol, p.supply, p.creator, p.token)
        + (enc_pay2(p.amount, p.tax, p.from, p.to, p.buyer)
        + (enc_pay3(p.seller, p.duration_blocks, p.lock_start_block, p.lock_duration_blocks, p.locked_by)
        + (enc_pay4(p.collection, p.collection_id, p.nft_id, p.owner, p.burned_by)
        + (enc_pay5(p.updated_by, p.metadata, p.description, p.address, p.is_valid)
        + enc_pay6(p.data, p.hash, p.public_key, p.private_key, p.anti_rug)))))
}

#[verifier::rlimit(100)]
fn push_pay1(out: &mut Vec<u8>, name: &Option<String>, symbol: &Option<String>, supply: &Option<u64>, creator: &Option<String>, token: &Option<String>)
    ensures
        final(out)@ == old(out)@ + enc_pay1(vopt(*name), vopt(*symbol), *supply, vopt(*creator), vopt(*token)),
{
    proof {
        reveal(enc_pay1);
    }
    push_opt_str(out, name);
    push_opt_str(out, symbol);
    push_opt_u64(out, supply);
    push_opt_str(out, creator);
    push_opt_str(out, token);
    assert(final(out)@ =~= old(out)@ + enc_pay1(vopt(*name), vopt(*symbol), *supply, vopt(*creator), vopt(*token)));
}

#[verifier::rlimit(100)]
fn push_pay2(out: &mut Vec<u8>, amount: &Option<u64>, tax: &Option<u64>, from: &Option<String>, to: &Option<String>, buyer: &Option<String>)
    ensures
        final(out)@ == old(out)@ + enc_pay2(*amount, *tax, vopt(*from), vopt(*to), vopt(*buyer)),
{
    proof {
        reveal(enc_pay2);
    }
    push_opt_u64(out, amount);
    push_opt_u64(out, tax);
    push_opt_str(out, from);
    push_opt_str(out, to);
    push_opt_str(out, buyer);
    assert(final(out)@ =~= old(out)@ + enc_pay2(*amount, *tax, vopt(*from), vopt(*to), vopt(*buyer)));
}

#[verifier::rlimit(100)]
fn push_pay3(out: &mut Vec<u8>, seller: &Option<String>, duration_blocks: &Option<u64>, lock_start_block: &Option<u64>, lock_duration_blocks: &Option<u64>, locked_by: &Option<String>)
    ensures
        final(out)@ == old(out)@ + enc_pay3(vopt(*seller), *duration_blocks, *lock_start_block, *lock_duration_blocks, vopt(*locked_by)),
{
    proof {
        reveal(enc_pay3);
    }
    push_opt_str(out, seller);
    push_opt_u64(out, duration_blocks);
    push_opt_u64(out, lock_start_block);
    push_opt_u64(out, lock_duration_blocks);
    push_opt_str(out, locked_by);
    assert(final(out)@ =~= old(out)@ + enc_pay3(vopt(*seller), *duration_blocks, *lock_start_block, *lock_duration_blocks, vopt(*locked_by)));
}

#[verifier::rlimit(100)]
fn push_pay4(out: &mut Vec<u8>, collection: &Option<String>, collection_id: &Option<String>, nft_id: &Option<String>, owner: &Option<String>, burned_by: &Option<String>)
    ensures
        final(out)@ == old(out)@ + enc_pay4(vopt(*collection), vopt(*collection_id), vopt(*nft_id), vopt(*owner), vopt(*burned_by)),
{
    proof {
        reveal(enc_pay4);
    }
    push_opt_str(out, collection);
    push_opt_str(out, collection_id);
    push_opt_str(out, nft_id);
    push_opt_str(out, owner);
    push_opt_str(out, burned_by);
    assert(final(out)@ =~= old(out)@ + enc_pay4(vopt(*collection), vopt(*collection_id), vopt(*nft_id), vopt(*owner), vopt(*burned_by)));
}

#[verifier::rlimit(100)]
fn push_pay5(out: &mut Vec<u8>, updated_by: &Option<String>, metadata: &Option<String>, description: &Option<String>, address: &Option<String>, is_valid: &Option<bool>)
    ensures
        final(out)@ == old(out)@ + enc_pay5(vopt(*updated_by), vopt(*metadata), vopt(*description), vopt(*address), *is_valid),
{
    proof {
        reveal(enc_pay5);
    }
    push_opt_str(out, updated_by);
    push_opt_str(out, metadata);
    push_opt_str(out, description);
    push_opt_str(out, address);
    push_opt_bool(out, is_valid);
    assert(final(out)@ =~= old(out)@ + enc_pay5(vopt(*updated_by), vopt(*metadata), vopt(*description), vopt(*address), *is_valid));
}

#[verifier::rlimit(100)]
fn push_pay6(out: &mut Vec<u8>, data: &Option<String>, hash: &Option<String>, public_key: &Option<String>, private_key: &Option<String>, anti_rug: &Option<AntiRugSettings>)
    ensures
        final(out)@ == old(out)@ + enc_pay6(vopt(*data), vopt(*hash), vopt(*public_key), vopt(*private_key), *anti_rug),
{
    proof {
        reveal(enc_pay6);
    }
    push_opt_str(out, data);
    push_opt_str(out, hash);
    push_opt_str(out, public_key);
    push_opt_str(out, private_key);
    push_opt_anti(out, anti_rug);
    assert(final(out)@ =~= old(out)@ + enc_pay6(vopt(*data), vopt(*hash), vopt(*public_key), vopt(*private_key), *anti_rug));
}

/// Append the encoding of a payload.
#[verifier::rlimit(100)]
pub fn push_payload(out: &mut Vec<u8>, p: &Payload)
    ensures
        final(out)@ == old(out)@ + enc_payload(p@),
{
    proof {
        reveal(enc_payload);
    }
    push_pay1(out, &p.name, &p.symbol, &p.supply, &p.creator, &p.token);
    push_pay2(out, &p.amount, &p.tax, &p.from, &p.to, &p.buyer);
    push_pay3(out, &p.seller, &p.duration_blocks, &p.lock_start_block, &p.lock_duration_blocks, &p.locked_by);
    push_pay4(out, &p.collection, &p.collection_id, &p.nft_id, &p.owner, &p.burned_by);
    push_pay5(out, &p.updated_by, &p.metadata, &p.description, &p.address, &p.is_valid);
    push_pay6(out, &p.data, &p.hash, &p.public_key, &p.private_key, &p.anti_rug);
    assert(final(out)@ =~= old(out)@ + enc_payload(p@));
}

#[verifier::rlimit(100)]
fn dec_pay_g1(b: &Vec<u8>, i: usize) -> (r: Option<((Option<String>, Option<String>, Option<u64>, Option<String>, Option<String>), usize)>)
    requires
        i <= b@.len(),
    ensures
        r matches Some((v, j)) ==> i <= j <= b@.len()
            && b@.subrange(i as int, j as int) == enc_pay1(vopt(v.0), vopt(v.1), v.2, vopt(v.3), vopt(v.4)),
{
    proof { reveal(enc_pay1); }
    let (f1, i1) = match dec_opt_str(b, i) { None => { return None; }, Some(x) => x };
    let (f2, i2) = match dec_opt_str(b, i1) { None => { return None; }, Some(x) => x };
    let (f3, i3) = match dec_opt_u64(b, i2) { None => { return None; }, Some(x) => x };
    let (f4, i4) = match dec_opt_str(b, i3) { None => { return None; }, Some(x) => x };
    let (f5, i5) = match dec_opt_str(b, i4) { None => { return None; }, Some(x) => x };
    proof {
        lemma_subrange_concat(b@, i as int, i4 as int, i5 as int);
        lemma_subrange_concat(b@, i as int, i3 as int, i4 as int);
        lemma_subrange_concat(b@, i as int, i2 as int, i3 as int);
        lemma_subrange_concat(b@, i as int, i1 as int, i2 as int);
        assert(b@.subrange(i as int, i5 as int) =~= enc_pay1(vopt(f1), vopt(f2), f3, vopt(f4), vopt(f5)));
    }
    Some(((f1, f2, f3, f4, f5), i5))
}

#[verifier::rlimit(100)]
fn dec_pay_g2(b: &Vec<u8>, i: usize) -> (r: Option<((Option<u64>, Option<u64>, Option<String>, Option<String>, Option<String>), usize)>)
    requires
        i <= b@.len(),
    ensures
        r matches Some((v, j)) ==> i <= j <= b@.len()
            && b@.subrange(i as int, j as int) == enc_pay2(v.0, v.1, vopt(v.2), vopt(v.3), vopt(v.4)),
{
    proof { reveal(enc_pay2); }
    let (f1, i1) = match dec_opt_u64(b, i) { None => { return None; }, Some(x) => x };
    let (f2, i2) = match dec_opt_u64(b, i1) { None => { return None; }, Some(x) => x };
    let (f3, i3) = match dec_opt_str(b, i2) { None => { return None; }, Some(x) => x };
    let (f4, i4) = match dec_opt_str(b, i3) { None => { return None; }, Some(x) => x };
    let (f5, i5) = match dec_opt_str(b, i4) { None => { return None; }, Some(x) => x };
    proof {
        lemma_subrange_concat(b@, i as int, i4 as int, i5 as int);
        lemma_subrange_concat(b@, i as int, i3 as int, i4 as int);
        lemma_subrange_concat(b@, i as int, i2 as int, i3 as int);
        lemma_subrange_concat(b@, i as int, i1 as int, i2 as int);
        assert(b@.subrange(i as int, i5 as int) =~= enc_pay2(f1, f2, vopt(f3), vopt(f4), vopt(f5)));
    }
    Some(((f1, f2, f3, f4, f5), i5))
}

#[verifier::rlimit(100)]
fn dec_pay_g3(b: &Vec<u8>, i: usize) -> (r: Option<((Option<String>, Option<u64>, Option<u64>, Option<u64>, Option<String>), usize)>)
    requires
        i <= b@.len(),
    ensures
        r matches Some((v, j)) ==> i <= j <= b@.len()
            && b@.subrange(i as int, j as int) == enc_pay3(vopt(v.0), v.1, v.2, v.3, vopt(v.4)),
{
    proof { reveal(enc_pay3); }
    let (f1, i1) = match dec_opt_str(b, i) { None => { return None; }, Some(x) => x };
    let (f2, i2) = match dec_opt_u64(b, i1) { None => { return None; }, Some(x) => x };
    let (f3, i3) = match dec_opt_u64(b, i2) { None => { return None; }, Some(x) => x };
    let (f4, i4) = match dec_opt_u64(b, i3) { None => { return None; }, Some(x) => x };
    let (f5, i5) = match dec_opt_str(b, i4) { None => { return None; }, Some(x) => x };
    proof {
        lemma_subrange_concat(b@, i as int, i4 as int, i5 as int);
        lemma_subrange_concat(b@, i as int, i3 as int, i4 as int);
        lemma_subrange_concat(b@, i as int, i2 as int, i3 as int);
        lemma_subrange_concat(b@, i as int, i1 as int, i2 as int);
        assert(b@.subrange(i as int, i5 as int) =~= enc_pay3(vopt(f1), f2, f3, f4, vopt(f5)));
    }
    Some(((f1, f2, f3, f4, f5), i5))
}

#[verifier::rlimit(100)]
fn dec_two_opt_str(b: &Vec<u8>, i: usize) -> (r: Option<((Option<String>, Option<String>), usize)>)
    requires
        i <= b@.len(),
    ensures
        r matches Some((v, j)) ==> i <= j <= b@.len()
            && b@.subrange(i as int, j as int) == enc_opt_str(vopt(v.0)) + enc_opt_str(vopt(v.1)),
{
    let (f1, i1) = match dec_opt_str(b, i) { None => { return None; }, Some(x) => x };
    let (f2, i2) = match dec_opt_str(b, i1) { None => { return None; }, Some(x) => x };
    proof {
        lemma_subrange_concat(b@, i as int, i1 as int, i2 as int);
    }
    Some(((f1, f2), i2))
}

#[verifier::rlimit(100)]
fn dec_pay_g4(b: &Vec<u8>, i: usize) -> (r: Option<((Option<String>, Option<String>, Option<String>, Option<String>, Option<String>), usize)>)
    requires
        i <= b@.len(),
    ensures
        r matches Some((v, j)) ==> i <= j <= b@.len()
            && b@.subrange(i as int, j as int) == enc_pay4(vopt(v.0), vopt(v.1), vopt(v.2), vopt(v.3), vopt(v.4)),
{
    proof { reveal(enc_pay4); }
    let (p1, i1) = match dec_two_opt_str(b, i) { None => { return None; }, Some(x) => x };
    let (p2, i2) = match dec_two_opt_str(b, i1) { None => { return None; }, Some(x) => x };
    let (f5, i3) = match dec_opt_str(b, i2) { None => { return None; }, Some(x) => x };
    let (f1, f2) = p1;
    let (f3, f4) = p2;
    proof {
        lemma_subrange_concat(b@, i as int, i2 as int, i3 as int);
        lemma_subrange_concat(b@, i as int, i1 as int, i2 as int);
        assert(b@.subrange(i as int, i3 as int) =~= enc_pay4(vopt(f1), vopt(f2), vopt(f3), vopt(f4), vopt(f5)));
    }
    Some(((f1, f2, f3, f4, f5), i3))
}

#[verifier::rlimit(100)]
fn dec_pay_g5(b: &Vec<u8>, i: usize) -> (r: Option<((Option<String>, Option<String>, Option<String>, Option<String>, Option<bool>), usize)>)
    requires
        i <= b@.len(),
    ensures
        r matches Some((v, j)) ==> i <= j <= b@.len()
            && b@.subrange(i as int, j as int) == enc_pay5(vopt(v.0), vopt(v.1), vopt(v.2), vopt(v.3), v.4),
{
    proof { reveal(enc_pay5); }
    let (f1, i1) = match dec_opt_str(b, i) { None => { return None; }, Some(x) => x };
    let (f2, i2) = match dec_opt_str(b, i1) { None => { return None; }, Some(x) => x };
    let (f3, i3) = match dec_opt_str(b, i2) { None => { return None; }, Some(x) => x };
    let (f4, i4) = match dec_opt_str(b, i3) { None => { return None; }, Some(x) => x };
    let (f5, i5) = match dec_opt_bool(b, i4) { None => { return None; }, Some(x) => x };
    proof {
        lemma_subrange_concat(b@, i as int, i4 as int, i5 as int);
        lemma_subrange_concat(b@, i as int, i3 as int, i4 as int);
        lemma_subrange_concat(b@, i as int, i2 as int, i3 as int);
        lemma_subrange_concat(b@, i as int, i1 as int, i2 as int);
        assert(b@.subrange(i as int, i5 as int) =~= enc_pay5(vopt(f1), vopt(f2), vopt(f3), vopt(f4), f5));
    }
    Some(((f1, f2, f3, f4, f5), i5))
}

#[verifier::rlimit(100)]
fn dec_pay_g6(b: &Vec<u8>, i: usize) -> (r: Option<((Option<String>, Option<String>, Option<String>, Option<String>, Option<AntiRugSettings>), usize)>)
    requires
        i <= b@.len(),
    ensures
        r matches Some((v, j)) ==> i <= j <= b@.len()
            && b@.subrange(i as int, j as int) == enc_pay6(vopt(v.0), vopt(v.1), vopt(v.2), vopt(v.3), v.4),
{
    proof { reveal(enc_pay6); }
    let (f1, i1) = match dec_opt_str(b, i) { None => { return None; }, Some(x) => x };
    let (f2, i2) = match dec_opt_str(b, i1) { None => { return None; }, Some(x) => x };
    let (f3, i3) = match dec_opt_str(b, i2) { None => { return None; }, Some(x) => x };
    let (f4, i4) = match dec_opt_str(b, i3) { None => { return None; }, Some(x) => x };
    let (f5, i5) = match dec_opt_anti(b, i4) { None => { return None; }, Some(x) => x };
    proof {
        lemma_subrange_concat(b@, i as int, i4 as int, i5 as int);
        lemma_subrange_concat(b@, i as int, i3 as int, i4 as int);
        lemma_subrange_concat(b@, i as int, i2 as int, i3 as int);
        lemma_subrange_concat(b@, i as int, i1 as int, i2 as int);
        assert(b@.subrange(i as int, i5 as int) =~= enc_pay6(vopt(f1), vopt(f2), vopt(f3), vopt(f4), f5));
    }
    Some(((f1, f2, f3, f4, f5), i5))
}

/// Decode a payload at offset `i`; the decoded payload is exactly what
/// the consumed bytes encode.
#[verifier::rlimit(100)]
pub fn dec_payload(b: &Vec<u8>, i: usize) -> (r: Option<(Payload, usize)>)
    requires
        i <= b@.len(),
    ensures
        r matches Some((v, j)) ==> i <= j <= b@.len()
            && b@.subrange(i as int, j as int) == enc_payload(v@),
{
    proof { reveal(enc_payload); }
    let (g1, i1) = match dec_pay_g1(b, i) { None => { return None; }, Some(x) => x };
    let (g2, i2) = match dec_pay_g2(b, i1) { None => { return None; }, Some(x) => x };
    let (g3, i3) = match dec_pay_g3(b, i2) { None => { return None; }, Some(x) => x };
    let (g4, i4) = match dec_pay_g4(b, i3) { None => { return None; }, Some(x) => x };
    let (g5, i5) = match dec_pay_g5(b, i4) { None => { return None; }, Some(x) => x };
    let (g6, i6) = match dec_pay_g6(b, i5) { None => { return None; }, Some(x) => x };
    let (name, symbol, supply, creator, token) = g1;
    let (amount, tax, from, to, buyer) = g2;
    let (seller, duration_blocks, lock_start_block, lock_duration_blocks, locked_by) = g3;
    let (collection, collection_id, nft_id, owner, burned_by) = g4;
    let (updated_by, metadata, description, address, is_valid) = g5;
    let (data, hash, public_key, private_key, anti_rug) = g6;
    let v = Payload {
        name, symbol, supply, creator, token, amount, tax, from, to, buyer,
        seller, duration_blocks, lock_start_block, lock_duration_blocks, locked_by,
        collection, collection_id, nft_id, owner, burned_by, updated_by, metadata,
        description, address, is_valid, data, hash, public_key, private_key, anti_rug,
    };
    proof {
        lemma_subrange_concat(b@, i as int, i5 as int, i6 as int);
        lemma_subrange_concat(b@, i as int, i4 as int, i5 as int);
        lemma_subrange_concat(b@, i as int, i3 as int, i4 as int);
        lemma_subrange_concat(b@, i as int, i2 as int, i3 as int);
        lemma_subrange_concat(b@, i as int, i1 as int, i2 as int);
        assert(b@.subrange(i as int, i6 as int) =~= enc_payload(v@));
    }
    Some((v, i6))
}

/// A transaction on the wire.
#[verifier::opaque]
pub open spec fn enc_transaction(t: TransactionV) -> Seq<u8> {
    enc_str(t.module)
        + (enc_str(t.action)
        + (enc_str(t.from)
        + (enc_opt_str(t.to)
        + (enc_payload(t.data)
        + (enc_i64(t.timestamp)
        + enc_str(t.signature))))))
}

/// Append the encoding of an optional address.
fn push_opt_addr(out: &mut Vec<u8>, o: &Option<Address>)
    ensures
        final(out)@ == old(out)@ + enc_opt_str(vopt_addr(*o)),
{
    proof {
        reveal(enc_opt_str);
    }
    match o {
        None => {
            out.push(0u8);
            assert(final(out)@ =~= old(out)@ + enc_opt_str(vopt_addr(*o)));
        }
        Some(a) => {
            out.push(1u8);
            push_str(out, a.as_str());
            assert(final(out)@ =~= old(out)@ + enc_opt_str(vopt_addr(*o)));
        }
    }
}

/// Append the encoding of a transaction.
#[verifier::rlimit(100)]
pub fn push_transaction(out: &mut Vec<u8>, t: &Transaction)
    ensures
        final(out)@ == old(out)@ + enc_transaction(t@),
{
    proof { reveal(enc_transaction); }
    push_str(out, t.module.as_str());
    push_str(out, t.action.as_str());
    push_str(out, t.from.as_str());
    push_opt_addr(out, &t.to);
    push_payload(out, &t.data);
    push_i64(out, t.timestamp);
    push_str(out, t.signature.as_str());
    assert(final(out)@ =~= old(out)@ + enc_transaction(t@));
}

/// Decode a transaction at offset `i`; the decoded transaction is
/// exactly what the consumed bytes encode.
#[verifier::rlimit(100)]
pub fn dec_transaction(b: &Vec<u8>, i: usize) -> (r: Option<(Transaction, usize)>)
    requires
        i <= b@.len(),
    ensures
        r matches Some((v, j)) ==> i <= j <= b@.len()
            && b@.subrange(i as int, j as int) == enc_transaction(v@),
{
    proof { reveal(enc_transaction); }
    let (module, i1) = match dec_str(b, i) { None => { return None; }, Some(x) => x };
    let (action, i2) = match dec_str(b, i1) { None => { return None; }, Some(x) => x };
    let (from, i3) = match dec_str(b, i2) { None => { return None; }, Some(x) => x };
    let (to, i4) = match dec_opt_str(b, i3) { None => { return None; }, Some(x) => x };
    let (data, i5) = match dec_payload(b, i4) { None => { return None; }, Some(x) => x };
    let (timestamp, i6) = match dec_i64(b, i5) { None => { return None; }, Some(x) => x };
    let (signature, i7) = match dec_str(b, i6) { None => { return None; }, Some(x) => x };
    let to_addr: Option<Address> = match to {
        None => None,
        Some(s) => Some(Address::new(s)),
    };
    let v = Transaction {
        module,
        action,
        from: Address::new(from),
        to: to_addr,
        data,
        timestamp,
        signature,
    };
    proof {
        lemma_subrange_concat(b@, i as int, i6 as int, i7 as int);
        lemma_subrange_concat(b@, i as int, i5 as int, i6 as int);
        lemma_subrange_concat(b@, i as int, i4 as int, i5 as int);
        lemma_subrange_concat(b@, i as int, i3 as int, i4 as int);
        lemma_subrange_concat(b@, i as int, i2 as int, i3 as int);
        lemma_subrange_concat(b@, i as int, i1 as int, i2 as int);
        assert(b@.subrange(i as int, i7 as int) =~= enc_transaction(v@));
    }
    Some((v, i7))
}

/// A transaction result on the wire.
#[verifier::opaque]
pub open spec fn enc_result(t: TransactionResultV) -> Seq<u8> {
    enc_bool(t.success)
        + (enc_opt_str(t.error)
        + (match t.data {
            None => seq![0u8],
            Some(p) => seq![1u8] + enc_payload(p),
        }))
}

/// Append the encoding of a transaction result.
#[verifier::rlimit(100)]
pub fn push_result(out: &mut Vec<u8>, t: &TransactionResult)
    ensures
        final(out)@ == old(out)@ + enc_result(t@),
{
    proof { reveal(enc_result); }
    push_bool(out, t.success);
    push_opt_str(out, &t.error);
    match &t.data {
        None => {
            out.push(0u8);
        }
        Some(p) => {
            out.push(1u8);
            push_payload(out, p);
        }
    }
    assert(final(out)@ =~= old(out)@ + enc_result(t@));
}

/// Decode a transaction result at offset `i`; the decoded result is
/// exactly what the consumed bytes encode.
#[verifier::rlimit(100)]
pub fn dec_result(b: &Vec<u8>, i: usize) -> (r: Option<(TransactionResult, usize)>)
    requires
        i <= b@.len(),
    ensures
        r matches Some((v, j)) ==> i <= j <= b@.len()
            && b@.subrange(i as int, j as int) == enc_result(v@),
{
    proof { reveal(enc_result); }
    let (success, i1) = match dec_bool(b, i) { None => { return None; }, Some(x) => x };
    let (error, i2) = match dec_opt_str(b, i1) { None => { return None; }, Some(x) => x };
    if i2 >= b.len() {
        return None;
    }
    let tag = b[i2];
    let (data, i3): (Option<Payload>, usize) = if tag == 0u8 {
        (None, i2 + 1)
    } else if tag == 1u8 {
        match dec_payload(b, i2 + 1) {
            None => { return None; },
            Some((p, j)) => {
                proof {
                    assert(b@.subrange(i2 as int, i2 as int + 1) =~= seq![1u8]);
                    lemma_subrange_concat(b@, i2 as int, i2 as int + 1, j as int);
                }
                (Some(p), j)
            }
        }
    } else {
        return None;
    };
    let v = TransactionResult { success, error, data };
    proof {
        if v.data is None {
            assert(b@.subrange(i2 as int, i3 as int) =~= seq![0u8]);
        }
        lemma_subrange_concat(b@, i as int, i2 as int, i3 as int);
        lemma_subrange_concat(b@, i as int, i1 as int, i2 as int);
        assert(b@.subrange(i as int, i3 as int) =~= enc_result(v@));
    }
    Some((v, i3))
}

/// A sequence of transactions on the wire, in order.
pub open spec fn enc_tx_seq(ts: Seq<TransactionV>) -> Seq<u8>
    decreases ts.len(),
{
    if ts.len() == 0 {
        Seq::empty()
    } else {
        enc_tx_seq(ts.drop_last()) + enc_transaction(ts.last())
    }
}

/// A sequence of results on the wire, in order.
pub open spec fn enc_res_seq(ts: Seq<TransactionResultV>) -> Seq<u8>
    decreases ts.len(),
{
    if ts.len() == 0 {
        Seq::empty()
    } else {
        enc_res_seq(ts.drop_last()) + enc_result(ts.last())
    }
}

/// The view of a vector of transactions.
pub open spec fn txs_view(v: Seq<Transaction>) -> Seq<TransactionV> {
    Seq::new(v.len(), |k: int| v[k]@)
}

/// The view of a vector of results.
pub open spec fn results_view(v: Seq<TransactionResult>) -> Seq<TransactionResultV> {
    Seq::new(v.len(), |k: int| v[k]@)
}

/// Append the counted transaction list.
#[verifier::rlimit(100)]
fn push_tx_vec(out: &mut Vec<u8>, txs: &Vec<Transaction>)
    ensures
        final(out)@ == old(out)@ + (enc_u64(txs@.len() as u64) + enc_tx_seq(txs_view(txs@))),
{
    push_u64(out, txs.len() as u64);
    let ghost pre = out@;
    let mut k: usize = 0;
    while k < txs.len()
        invariant
            0 <= k <= txs@.len(),
            out@ == pre + enc_tx_seq(txs_view(txs@).take(k as int)),
        decreases txs@.len() - k,
    {
        push_transaction(out, &txs[k]);
        proof {
            let t1 = txs_view(txs@).take(k as int + 1);
            assert(t1.drop_last() =~= txs_view(txs@).take(k as int));
            assert(t1.last() == txs@[k as int]@);
            assert(enc_tx_seq(t1) == enc_tx_seq(t1.drop_last()) + enc_transaction(t1.last()));
            assert(out@ =~= pre + enc_tx_seq(t1));
        }
        k += 1;
    }
    proof {
        assert(txs_view(txs@).take(txs@.len() as int) =~= txs_view(txs@));
        assert(final(out)@ =~= old(out)@ + (enc_u64(txs@.len() as u64) + enc_tx_seq(txs_view(txs@))));
    }
}

/// Append the counted result list.
#[verifier::rlimit(100)]
fn push_res_vec(out: &mut Vec<u8>, rs: &Vec<TransactionResult>)
    ensures
        final(out)@ == old(out)@ + (enc_u64(rs@.len() as u64) + enc_res_seq(results_view(rs@))),
{
    push_u64(out, rs.len() as u64);
    let ghost pre = out@;
    let mut k: usize = 0;
    while k < rs.len()
        invariant
            0 <= k <= rs@.len(),
            out@ == pre + enc_res_seq(results_view(rs@).take(k as int)),
        decreases rs@.len() - k,
    {
        push_result(out, &rs[k]);
        proof {
            let t1 = results_view(rs@).take(k as int + 1);
            assert(t1.drop_last() =~= results_view(rs@).take(k as int));
            assert(t1.last() == rs@[k as int]@);
            assert(enc_res_seq(t1) == enc_res_seq(t1.drop_last()) + enc_result(t1.last()));
            assert(out@ =~= pre + enc_res_seq(t1));
        }
        k += 1;
    }
    proof {
        assert(results_view(rs@).take(rs@.len() as int) =~= results_view(rs@));
        assert(final(out)@ =~= old(out)@ + (enc_u64(rs@.len() as u64) + enc_res_seq(results_view(rs@))));
    }
}

/// A block on the wire: height, timestamp, the counted transaction and
/// result lists, and the two hash fields.
pub open spec fn enc_block(v: BlockV) -> Seq<u8> {
    enc_u64(v.height)
        + (enc_i64(v.timestamp)
        + ((enc_u64(v.transactions.len() as u64) + enc_tx_seq(v.transactions))
        + ((enc_u64(v.results.len() as u64) + enc_res_seq(v.results))
        + (enc_str(v.hash)
        + enc_str(v.previous_hash)))))
}

/// Encode a block.
#[verifier::rlimit(100)]
pub fn encode_block(v: &Block) -> (r: Vec<u8>)
    ensures
        r@ == enc_block(v@),
{
    let mut out: Vec<u8> = Vec::new();
    push_u64(&mut out, v.height);
    push_i64(&mut out, v.timestamp);
    push_tx_vec(&mut out, &v.transactions);
    push_res_vec(&mut out, &v.results);
    push_str(&mut out, v.hash.as_str());
    push_str(&mut out, v.previous_hash.as_str());
    proof {
        assert(v@.transactions =~= txs_view(v.transactions@));
        assert(v@.results =~= results_view(v.results@));
        assert(out@ =~= enc_block(v@));
    }
    out
}

/// Decode the counted transaction list at offset `i`.
#[verifier::rlimit(100)]
fn dec_tx_vec(b: &Vec<u8>, i: usize) -> (r: Option<(Vec<Transaction>, usize)>)
    requires
        i <= b@.len(),
    ensures
        r matches Some((v, j)) ==> i <= j <= b@.len()
            && b@.subrange(i as int, j as int) == enc_u64(v@.len() as u64) + enc_tx_seq(txs_view(v@)),
{
    let (ntx, i1) = match dec_u64(b, i) { None => { return None; }, Some(x) => x };
    let mut txs: Vec<Transaction> = Vec::new();
    let mut cur: usize = i1;
    let mut k: u64 = 0;
    while k < ntx
        invariant
            i1 <= cur <= b@.len(),
            0 <= k <= ntx,
            txs@.len() == k,
            b@.subrange(i1 as int, cur as int) == enc_tx_seq(txs_view(txs@)),
        decreases ntx - k,
    {
        let (tx, nxt) = match dec_transaction(b, cur) { None => { return None; }, Some(x) => x };
        let ghost old_txs = txs@;
        txs.push(tx);
        proof {
            let t1 = txs_view(txs@);
            assert(t1.drop_last() =~= txs_view(txs@.drop_last()));
            assert(txs@.drop_last() =~= old_txs);
            assert(t1.last() == tx@);
            assert(enc_tx_seq(t1) == enc_tx_seq(t1.drop_last()) + enc_transaction(t1.last()));
            lemma_subrange_concat(b@, i1 as int, cur as int, nxt as int);
            assert(b@.subrange(i1 as int, nxt as int) =~= enc_tx_seq(t1));
        }
        cur = nxt;
        k += 1;
    }
    proof {
        lemma_subrange_concat(b@, i as int, i1 as int, cur as int);
    }
    Some((txs, cur))
}

/// Decode the counted result list at offset `i`.
#[verifier::rlimit(100)]
fn dec_res_vec(b: &Vec<u8>, i: usize) -> (r: Option<(Vec<TransactionResult>, usize)>)
    requires
        i <= b@.len(),
    ensures
        r matches Some((v, j)) ==> i <= j <= b@.len()
            && b@.subrange(i as int, j as int) == enc_u64(v@.len() as u64) + enc_res_seq(results_view(v@)),
{
    let (nres, i1) = match dec_u64(b, i) { None => { return None; }, Some(x) => x };
    let mut rs: Vec<TransactionResult> = Vec::new();
    let mut cur: usize = i1;
    let mut k: u64 = 0;
    while k < nres
        invariant
            i1 <= cur <= b@.len(),
            0 <= k <= nres,
            rs@.len() == k,
            b@.subrange(i1 as int, cur as int) == enc_res_seq(results_view(rs@)),
        decreases nres - k,
    {
        let (res, nxt) = match dec_result(b, cur) { None => { return None; }, Some(x) => x };
        let ghost old_rs = rs@;
        rs.push(res);
        proof {
            let t1 = results_view(rs@);
            assert(t1.drop_last() =~= results_view(rs@.drop_last()));
            assert(rs@.drop_last() =~= old_rs);
            assert(t1.last() == res@);
            assert(enc_res_seq(t1) == enc_res_seq(t1.drop_last()) + enc_result(t1.last()));
            lemma_subrange_concat(b@, i1 as int, cur as int, nxt as int);
            assert(b@.subrange(i1 as int, nxt as int) =~= enc_res_seq(t1));
        }
        cur = nxt;
        k += 1;
    }
    proof {
        lemma_subrange_concat(b@, i as int, i1 as int, cur as int);
    }
    Some((rs, cur))
}

/// Decode a block at offset `i`; the decoded block is exactly what the
/// consumed bytes encode.
#[verifier::rlimit(100)]
pub fn dec_block(b: &Vec<u8>, i: usize) -> (r: Option<(Block, usize)>)
    requires
        i <= b@.len(),
    ensures
        r matches Some((v, j)) ==> i <= j <= b@.len()
            && b@.subrange(i as int, j as int) == enc_block(v@),
{
    let (height, i1) = match dec_u64(b, i) { None => { return None; }, Some(x) => x };
    let (timestamp, i2) = match dec_i64(b, i1) { None => { return None; }, Some(x) => x };
    let (transactions, i3) = match dec_tx_vec(b, i2) { None => { return None; }, Some(x) => x };
    let (results, i4) = match dec_res_vec(b, i3) { None => { return None; }, Some(x) => x };
    let (hash, i5) = match dec_str(b, i4) { None => { return None; }, Some(x) => x };
    let (previous_hash, i6) = match dec_str(b, i5) { None => { return None; }, Some(x) => x };
    let v = Block { height, timestamp, transactions, results, hash, previous_hash };
    proof {
        assert(v@.transactions =~= txs_view(v.transactions@));
        assert(v@.results =~= results_view(v.results@));
        lemma_subrange_concat(b@, i as int, i5 as int, i6 as int);
        lemma_subrange_concat(b@, i as int, i4 as int, i5 as int);
        lemma_subrange_concat(b@, i as int, i3 as int, i4 as int);
        lemma_subrange_concat(b@, i as int, i2 as int, i3 as int);
        lemma_subrange_concat(b@, i as int, i1 as int, i2 as int);
        assert(b@.subrange(i as int, i6 as int) =~= enc_block(v@));
    }
    Some((v, i6))
}


// ---------------------------------------------------------------------
// Injectivity of the record encodings
// ---------------------------------------------------------------------

/// The bound under which a length prefix is faithful: byte strings
/// shorter than 2^64.
pub open spec fn len_bound() -> int {
    0x1_0000_0000_0000_0000
}

/// Two string encodings that prefix the same bounded byte string are
/// encodings of the same string, of the same length.
pub proof fn lemma_enc_str_prefix_unique(x: Seq<char>, y: Seq<char>, s: Seq<u8>)
    requires
        enc_str(x).is_prefix_of(s),
        enc_str(y).is_prefix_of(s),
        s.len() < len_bound(),
    ensures
        x == y,
        enc_str(x).len() == enc_str(y).len(),
{
    reveal(enc_str);
    let nx = encode_utf8(x).len() as u64;
    let ny = encode_utf8(y).len() as u64;
    lemma_enc_u64_len(nx);
    lemma_enc_u64_len(ny);
    lemma_prefix_split(enc_u64(nx), encode_utf8(x), s);
    lemma_prefix_split(enc_u64(ny), encode_utf8(y), s);
    assert(enc_u64(nx) =~= s.subrange(0, 8));
    assert(enc_u64(ny) =~= s.subrange(0, 8));
    lemma_enc_u64_inj(nx, ny);
    // the real lengths fit the prefix, so equal prefixes mean equal lengths
    assert(encode_utf8(x).len() < len_bound());
    assert(encode_utf8(y).len() < len_bound());
    assert(encode_utf8(x).len() == encode_utf8(y).len());
    assert(encode_utf8(x) =~= s.skip(8).subrange(0, encode_utf8(x).len() as int));
    assert(encode_utf8(y) =~= s.skip(8).subrange(0, encode_utf8(y).len() as int));
    vstd::utf8::encode_utf8_decode_utf8(x);
    vstd::utf8::encode_utf8_decode_utf8(y);
}

/// Two optional-u64 encodings that prefix the same byte string encode
/// the same value.
pub proof fn lemma_enc_opt_u64_prefix_unique(x: Option<u64>, y: Option<u64>, s: Seq<u8>)
    requires
        enc_opt_u64(x).is_prefix_of(s),
        enc_opt_u64(y).is_prefix_of(s),
    ensures
        x == y,
        enc_opt_u64(x).len() == enc_opt_u64(y).len(),
{
    lemma_opt_u64_first(x);
    lemma_opt_u64_first(y);
    lemma_prefix_first(enc_opt_u64(x), s);
    lemma_prefix_first(enc_opt_u64(y), s);
    match (x, y) {
        (Some(a), Some(b)) => {
            lemma_enc_u64_len(a);
            lemma_enc_u64_len(b);
            lemma_prefix_split(seq![1u8], enc_u64(a), s);
            lemma_prefix_split(seq![1u8], enc_u64(b), s);
            assert(enc_u64(a) =~= s.skip(1).subrange(0, 8));
            assert(enc_u64(b) =~= s.skip(1).subrange(0, 8));
            lemma_enc_u64_inj(a, b);
        }
        (None, None) => {}
        _ => {}
    }
}

/// Two anti-rug encodings that prefix the same byte string encode the
/// same settings.
pub proof fn lemma_enc_anti_prefix_unique(x: AntiRugSettings, y: AntiRugSettings, s: Seq<u8>)
    requires
        enc_anti(x).is_prefix_of(s),
        enc_anti(y).is_prefix_of(s),
    ensures
        x == y,
        enc_anti(x).len() == enc_anti(y).len(),
{
    lemma_anti_parts(x, s);
    lemma_anti_parts(y, s);
    lemma_enc_u64_len(x.max_wallet_percentage as u64);
    lemma_enc_u64_len(y.max_wallet_percentage as u64);
    lemma_enc_u64_len(x.buy_tax_percentage as u64);
    lemma_enc_u64_len(y.buy_tax_percentage as u64);
    lemma_enc_u64_len(x.sell_tax_percentage as u64);
    lemma_enc_u64_len(y.sell_tax_percentage as u64);
    lemma_enc_u64_len(x.liquidity_locked_percentage as u64);
    lemma_enc_u64_len(y.liquidity_locked_percentage as u64);
    lemma_enc_u64_len(x.lock_duration_blocks);
    lemma_enc_u64_len(y.lock_duration_blocks);
    assert(enc_u64(x.max_wallet_percentage as u64) =~= s.subrange(0, 8));
    assert(enc_u64(y.max_wallet_percentage as u64) =~= s.subrange(0, 8));
    lemma_enc_u64_inj(x.max_wallet_percentage as u64, y.max_wallet_percentage as u64);
    assert(enc_u64(x.buy_tax_percentage as u64) =~= s.skip(8).subrange(0, 8));
    assert(enc_u64(y.buy_tax_percentage as u64) =~= s.skip(8).subrange(0, 8));
    lemma_enc_u64_inj(x.buy_tax_percentage as u64, y.buy_tax_percentage as u64);
    assert(enc_u64(x.sell_tax_percentage as u64) =~= s.skip(16).subrange(0, 8));
    assert(enc_u64(y.sell_tax_percentage as u64) =~= s.skip(16).subrange(0, 8));
    lemma_enc_u64_inj(x.sell_tax_percentage as u64, y.sell_tax_percentage as u64);
    assert(enc_u64(x.liquidity_locked_percentage as u64) =~= s.skip(24).subrange(0, 8));
    assert(enc_u64(y.liquidity_locked_percentage as u64) =~= s.skip(24).subrange(0, 8));
    lemma_enc_u64_inj(x.liquidity_locked_percentage as u64, y.liquidity_locked_percentage as u64);
    assert(enc_u64(x.lock_duration_blocks) =~= s.skip(32).subrange(0, 8));
    assert(enc_u64(y.lock_duration_blocks) =~= s.skip(32).subrange(0, 8));
    lemma_enc_u64_inj(x.lock_duration_blocks, y.lock_duration_blocks);
    lemma_enc_opt_u64_prefix_unique(x.lock_start_block, y.lock_start_block, s.skip(40));
}

/// Field positions of a token-tail encoding that prefixes `s`.
proof fn lemma_ttail_parts(cr: Seq<char>, a: AntiRugSettings, c: i64, u: i64, s: Seq<u8>)
    requires
        enc_ttail(cr, a, c, u).is_prefix_of(s),
    ensures
        ({
            let o1 = enc_str(cr).len() as int;
            let o2 = o1 + enc_anti(a).len() as int;
            &&& enc_str(cr).is_prefix_of(s)
            &&& enc_anti(a).is_prefix_of(s.skip(o1))
            &&& enc_i64(c).is_prefix_of(s.skip(o2))
            &&& enc_i64(u).is_prefix_of(s.skip(o2 + 8))
            &&& enc_ttail(cr, a, c, u).len() == o2 + 16
        }),
{
    let e1 = enc_str(cr);
    let e2 = enc_anti(a);
    let e3 = enc_i64(c);
    let e4 = enc_i64(u);
    let o1 = e1.len() as int;
    let o2 = o1 + e2.len() as int;
    lemma_enc_u64_len(((c - i64::MIN) as u64));
    lemma_enc_u64_len(((u - i64::MIN) as u64));
    lemma_prefix_split(e1, e2 + (e3 + e4), s);
    lemma_prefix_split(e2, e3 + e4, s.skip(o1));
    lemma_skip_skip(s, o1, e2.len() as int);
    lemma_prefix_split(e3, e4, s.skip(o2));
    lemma_skip_skip(s, o2, 8);
}

/// Field positions of a token encoding that prefixes `s`.
proof fn lemma_token_parts(v: TokenV, s: Seq<u8>)
    requires
        enc_token(v).is_prefix_of(s),
    ensures
        ({
            let o1 = enc_str(v.symbol).len() as int;
            let o2 = o1 + enc_str(v.name).len() as int;
            let o3 = o2 + 8;
            &&& enc_str(v.symbol).is_prefix_of(s)
            &&& enc_str(v.name).is_prefix_of(s.skip(o1))
            &&& enc_u64(v.total_supply).is_prefix_of(s.skip(o2))
            &&& enc_ttail(v.creator, v.anti_rug, v.created_at, v.updated_at).is_prefix_of(s.skip(o3))
            &&& enc_token(v).len() == o3 + enc_ttail(v.creator, v.anti_rug, v.created_at, v.updated_at).len()
        }),
{
    let e1 = enc_str(v.symbol);
    let e2 = enc_str(v.name);
    let e3 = enc_u64(v.total_supply);
    let e4 = enc_ttail(v.creator, v.anti_rug, v.created_at, v.updated_at);
    let o1 = e1.len() as int;
    let o2 = o1 + e2.len() as int;
    lemma_enc_u64_len(v.total_supply);
    lemma_prefix_split(e1, e2 + (e3 + e4), s);
    lemma_prefix_split(e2, e3 + e4, s.skip(o1));
    lemma_skip_skip(s, o1, e2.len() as int);
    lemma_prefix_split(e3, e4, s.skip(o2));
    lemma_skip_skip(s, o2, 8);
}

/// Field positions of an NFT-tail encoding that prefixes `s`.
proof fn lemma_ntail_parts(ow: Seq<char>, md: Option<Seq<char>>, c: i64, u: i64, s: Seq<u8>)
    requires
        enc_ntail(ow, md, c, u).is_prefix_of(s),
    ensures
        ({
            let o1 = enc_str(ow).len() as int;
            let o2 = o1 + enc_opt_str(md).len() as int;
            &&& enc_str(ow).is_prefix_of(s)
            &&& enc_opt_str(md).is_prefix_of(s.skip(o1))
            &&& enc_i64(c).is_prefix_of(s.skip(o2))
            &&& enc_i64(u).is_prefix_of(s.skip(o2 + 8))
            &&& enc_ntail(ow, md, c, u).len() == o2 + 16
        }),
{
    let e1 = enc_str(ow);
    let e2 = enc_opt_str(md);
    let e3 = enc_i64(c);
    let e4 = enc_i64(u);
    let o1 = e1.len() as int;
    let o2 = o1 + e2.len() as int;
    lemma_enc_u64_len(((c - i64::MIN) as u64));
    lemma_enc_u64_len(((u - i64::MIN) as u64));
    lemma_prefix_split(e1, e2 + (e3 + e4), s);
    lemma_prefix_split(e2, e3 + e4, s.skip(o1));
    lemma_skip_skip(s, o1, e2.len() as int);
    lemma_prefix_split(e3, e4, s.skip(o2));
    lemma_skip_skip(s, o2, 8);
}

/// Field positions of an NFT encoding that prefixes `s`.
proof fn lemma_nft_parts(v: NftV, s: Seq<u8>)
    requires
        enc_nft(v).is_prefix_of(s),
    ensures
        ({
            let o1 = enc_str(v.id).len() as int;
            let o2 = o1 + enc_str(v.collection_id).len() as int;
            let o3 = o2 + enc_str(v.name).len() as int;
            &&& enc_str(v.id).is_prefix_of(s)
            &&& enc_str(v.collection_id).is_prefix_of(s.skip(o1))
            &&& enc_str(v.name).is_prefix_of(s.skip(o2))
            &&& enc_ntail(v.owner, v.metadata, v.created_at, v.updated_at).is_prefix_of(s.skip(o3))
            &&& enc_nft(v).len() == o3 + enc_ntail(v.owner, v.metadata, v.created_at, v.updated_at).len()
        }),
{
    let e1 = enc_str(v.id);
    let e2 = enc_str(v.collection_id);
    let e3 = enc_str(v.name);
    let e4 = enc_ntail(v.owner, v.metadata, v.created_at, v.updated_at);
    let o1 = e1.len() as int;
    let o2 = o1 + e2.len() as int;
    let o3 = o2 + e3.len() as int;
    lemma_prefix_split(e1, e2 + (e3 + e4), s);
    lemma_prefix_split(e2, e3 + e4, s.skip(o1));
    lemma_skip_skip(s, o1, e2.len() as int);
    lemma_prefix_split(e3, e4, s.skip(o2));
    lemma_skip_skip(s, o2, e3.len() as int);
}

/// The balance encoding is injective on bounded records.
pub proof fn lemma_enc_balance_inj(x: BalanceV, y: BalanceV)
    requires
        enc_balance(x) == enc_balance(y),
        enc_balance(x).len() < len_bound(),
    ensures
        x == y,
{
    let s = enc_balance(x);
    assert(enc_balance(x).is_prefix_of(s));
    assert(enc_balance(y).is_prefix_of(s));
    lemma_balance_parts(x, s);
    lemma_balance_parts(y, s);
    lemma_enc_u64_len(x.amount);
    lemma_enc_u64_len(y.amount);
    lemma_enc_u64_len(((x.updated_at - i64::MIN) as u64));
    lemma_enc_u64_len(((y.updated_at - i64::MIN) as u64));
    lemma_enc_str_prefix_unique(x.address, y.address, s);
    let o1 = enc_str(x.address).len() as int;
    lemma_enc_str_prefix_unique(x.token, y.token, s.skip(o1));
    let o2 = o1 + enc_str(x.token).len() as int;
    assert(enc_u64(x.amount) =~= s.skip(o2).subrange(0, 8));
    assert(enc_u64(y.amount) =~= s.skip(o2).subrange(0, 8));
    lemma_enc_u64_inj(x.amount, y.amount);
    assert(enc_i64(x.updated_at) =~= s.skip(o2 + 8).subrange(0, 8));
    assert(enc_i64(y.updated_at) =~= s.skip(o2 + 8).subrange(0, 8));
    lemma_enc_u64_inj(((x.updated_at - i64::MIN) as u64), ((y.updated_at - i64::MIN) as u64));
}

/// The token encoding is injective on bounded records.
pub proof fn lemma_enc_token_inj(x: TokenV, y: TokenV)
    requires
        enc_token(x) == enc_token(y),
        enc_token(x).len() < len_bound(),
    ensures
        x == y,
{
    let s = enc_token(x);
    assert(enc_token(x).is_prefix_of(s));
    assert(enc_token(y).is_prefix_of(s));
    lemma_token_parts(x, s);
    lemma_token_parts(y, s);
    lemma_enc_u64_len(x.total_supply);
    lemma_enc_u64_len(y.total_supply);
    lemma_enc_u64_len(((x.created_at - i64::MIN) as u64));
    lemma_enc_u64_len(((y.created_at - i64::MIN) as u64));
    lemma_enc_u64_len(((x.updated_at - i64::MIN) as u64));
    lemma_enc_u64_len(((y.updated_at - i64::MIN) as u64));
    lemma_enc_str_prefix_unique(x.symbol, y.symbol, s);
    let o1 = enc_str(x.symbol).len() as int;
    lemma_enc_str_prefix_unique(x.name, y.name, s.skip(o1));
    let o2 = o1 + enc_str(x.name).len() as int;
    assert(enc_u64(x.total_supply) =~= s.skip(o2).subrange(0, 8));
    assert(enc_u64(y.total_supply) =~= s.skip(o2).subrange(0, 8));
    lemma_enc_u64_inj(x.total_supply, y.total_supply);
    let o3 = o2 + 8;
    let t = s.skip(o3);
    lemma_ttail_parts(x.creator, x.anti_rug, x.created_at, x.updated_at, t);
    lemma_ttail_parts(y.creator, y.anti_rug, y.created_at, y.updated_at, t);
    lemma_enc_str_prefix_unique(x.creator, y.creator, t);
    let p1 = enc_str(x.creator).len() as int;
    lemma_enc_anti_prefix_unique(x.anti_rug, y.anti_rug, t.skip(p1));
    let p2 = p1 + enc_anti(x.anti_rug).len() as int;
    assert(enc_i64(x.created_at) =~= t.skip(p2).subrange(0, 8));
    assert(enc_i64(y.created_at) =~= t.skip(p2).subrange(0, 8));
    lemma_enc_u64_inj(((x.created_at - i64::MIN) as u64), ((y.created_at - i64::MIN) as u64));
    assert(enc_i64(x.updated_at) =~= t.skip(p2 + 8).subrange(0, 8));
    assert(enc_i64(y.updated_at) =~= t.skip(p2 + 8).subrange(0, 8));
    lemma_enc_u64_inj(((x.updated_at - i64::MIN) as u64), ((y.updated_at - i64::MIN) as u64));
}

/// Two optional-string encodings that prefix the same bounded byte
/// string encode the same value.
pub proof fn lemma_enc_opt_str_prefix_unique(x: Option<Seq<char>>, y: Option<Seq<char>>, s: Seq<u8>)
    requires
        enc_opt_str(x).is_prefix_of(s),
        enc_opt_str(y).is_prefix_of(s),
        s.len() < len_bound(),
    ensures
        x == y,
        enc_opt_str(x).len() == enc_opt_str(y).len(),
{
    reveal(enc_opt_str);
    lemma_opt_str_first(x);
    lemma_opt_str_first(y);
    lemma_prefix_first(enc_opt_str(x), s);
    lemma_prefix_first(enc_opt_str(y), s);
    match (x, y) {
        (Some(a), Some(b)) => {
            lemma_prefix_split(seq![1u8], enc_str(a), s);
            lemma_prefix_split(seq![1u8], enc_str(b), s);
            lemma_enc_str_prefix_unique(a, b, s.skip(1));
        }
        (None, None) => {}
        _ => {}
    }
}

/// The NFT encoding is injective on bounded records.
pub proof fn lemma_enc_nft_inj(x: NftV, y: NftV)
    requires
        enc_nft(x) == enc_nft(y),
        enc_nft(x).len() < len_bound(),
    ensures
        x == y,
{
    let s = enc_nft(x);
    assert(enc_nft(x).is_prefix_of(s));
    assert(enc_nft(y).is_prefix_of(s));
    lemma_nft_parts(x, s);
    lemma_nft_parts(y, s);
    lemma_enc_u64_len(((x.created_at - i64::MIN) as u64));
    lemma_enc_u64_len(((y.created_at - i64::MIN) as u64));
    lemma_enc_u64_len(((x.updated_at - i64::MIN) as u64));
    lemma_enc_u64_len(((y.updated_at - i64::MIN) as u64));
    lemma_enc_str_prefix_unique(x.id, y.id, s);
    let o1 = enc_str(x.id).len() as int;
    lemma_enc_str_prefix_unique(x.collection_id, y.collection_id, s.skip(o1));
    let o2 = o1 + enc_str(x.collection_id).len() as int;
    lemma_enc_str_prefix_unique(x.name, y.name, s.skip(o2));
    let o3 = o2 + enc_str(x.name).len() as int;
    let t = s.skip(o3);
    lemma_ntail_parts(x.owner, x.metadata, x.created_at, x.updated_at, t);
    lemma_ntail_parts(y.owner, y.metadata, y.created_at, y.updated_at, t);
    lemma_enc_str_prefix_unique(x.owner, y.owner, t);
    let p1 = enc_str(x.owner).len() as int;
    lemma_enc_opt_str_prefix_unique(x.metadata, y.metadata, t.skip(p1));
    let p2 = p1 + enc_opt_str(x.metadata).len() as int;
    assert(enc_i64(x.created_at) =~= t.skip(p2).subrange(0, 8));
    assert(enc_i64(y.created_at) =~= t.skip(p2).subrange(0, 8));
    lemma_enc_u64_inj(((x.created_at - i64::MIN) as u64), ((y.created_at - i64::MIN) as u64));
    assert(enc_i64(x.updated_at) =~= t.skip(p2 + 8).subrange(0, 8));
    assert(enc_i64(y.updated_at) =~= t.skip(p2 + 8).subrange(0, 8));
    lemma_enc_u64_inj(((x.updated_at - i64::MIN) as u64), ((y.updated_at - i64::MIN) as u64));
}

/// The collection encoding is injective on bounded records.
pub proof fn lemma_enc_collection_inj(x: CollectionV, y: CollectionV)
    requires
        enc_collection(x) == enc_collection(y),
        enc_collection(x).len() < len_bound(),
    ensures
        x == y,
{
    let s = enc_collection(x);
    assert(enc_collection(x).is_prefix_of(s));
    assert(enc_collection(y).is_prefix_of(s));
    lemma_collection_parts(x, s);
    lemma_collection_parts(y, s);
    lemma_enc_u64_len(((x.created_at - i64::MIN) as u64));
    lemma_enc_u64_len(((y.created_at - i64::MIN) as u64));
    lemma_enc_u64_len(((x.updated_at - i64::MIN) as u64));
    lemma_enc_u64_len(((y.updated_at - i64::MIN) as u64));
    lemma_enc_str_prefix_unique(x.id, y.id, s);
    let o1 = enc_str(x.id).len() as int;
    lemma_enc_str_prefix_unique(x.name, y.name, s.skip(o1));
    let o2 = o1 + enc_str(x.name).len() as int;
    lemma_enc_str_prefix_unique(x.creator, y.creator, s.skip(o2));
    let o3 = o2 + enc_str(x.creator).len() as int;
    lemma_enc_str_prefix_unique(x.description, y.description, s.skip(o3));
    let o4 = o3 + enc_str(x.description).len() as int;
    assert(enc_i64(x.created_at) =~= s.skip(o4).subrange(0, 8));
    assert(enc_i64(y.created_at) =~= s.skip(o4).subrange(0, 8));
    lemma_enc_u64_inj(((x.created_at - i64::MIN) as u64), ((y.created_at - i64::MIN) as u64));
    assert(enc_i64(x.updated_at) =~= s.skip(o4 + 8).subrange(0, 8));
    assert(enc_i64(y.updated_at) =~= s.skip(o4 + 8).subrange(0, 8));
    lemma_enc_u64_inj(((x.updated_at - i64::MIN) as u64), ((y.updated_at - i64::MIN) as u64));
}

} // verus!
