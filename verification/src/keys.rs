//! Keys as the engine sees them.
//!
//! On disk every record carries a *sequenced key*: a varint transaction
//! sequence number followed by the user key.  In the index, keys are
//! ordered bytewise (shortlex on equal prefixes), which this module
//! defines and decides.

use vstd::prelude::*;

use crate::varint::{
    encode_varint, lemma_varint_parse_bounds, lemma_varint_round_trip, spec_varint,
    spec_varint_parse,
};

verus! {

/// The sequenced key written to disk for `(seq_no, user key)`.
pub open spec fn spec_seq_key(seq_no: u64, user: Seq<u8>) -> Seq<u8> {
    spec_varint(seq_no) + user
}

/// Splits a stored key back into its sequence number and user key.
/// `None` when no varint opens the key or its value does not fit below
/// `u64::MAX` — the counter after the largest stored number must itself
/// still be a `u64`.
pub open spec fn spec_split_key(k: Seq<u8>) -> Option<(u64, Seq<u8>)> {
    match spec_varint_parse(k) {
        None => None,
        Some((v, l)) => if v >= u64::MAX {
            None
        } else {
            Some((v as u64, k.skip(l)))
        },
    }
}

/// Splitting a sequenced key gives back what built it.
pub proof fn lemma_split_seq_key(seq_no: u64, user: Seq<u8>)
    requires
        seq_no < u64::MAX,
    ensures
        spec_split_key(spec_seq_key(seq_no, user)) == Some((seq_no, user)),
{
    lemma_varint_round_trip(seq_no, user);
    let l = spec_varint(seq_no).len() as int;
    assert(spec_seq_key(seq_no, user).skip(l) =~= user);
}

/// Prepends the varint of `seq_no` to `key`.
pub fn log_record_key_with_seq(key: &Vec<u8>, seq_no: u64) -> (enc: Vec<u8>)
    ensures
        enc@ == spec_seq_key(seq_no, key@),
{
    let mut enc: Vec<u8> = Vec::new();
    encode_varint(seq_no, &mut enc);
    crate::util::extend_bytes(&mut enc, key.as_slice());
    enc
}

/// Splits a stored key into the user key and the sequence number, or
/// `None` where no sequence number can be read off the front.
pub fn parse_log_record_key(key: &Vec<u8>) -> (r: Option<(Vec<u8>, u64)>)
    ensures
        match r {
            Some(p) => spec_split_key(key@) == Some((p.1, p.0@)),
            None => spec_split_key(key@) is None,
        },
{
    let ghost s = key@;
    assert(s.skip(0) =~= s);
    match crate::varint::decode_varint(key.as_slice(), 0) {
        None => None,
        Some((seq_no, l)) => {
            if seq_no == u64::MAX {
                return None;
            }
            proof {
                lemma_varint_parse_bounds(s);
            }
            let user = crate::util::copy_range(key.as_slice(), l, key.len());
            assert(user@ =~= s.skip(l as int));
            Some((user, seq_no))
        },
    }
}

/// How the index orders two keys.
#[derive(Debug, PartialEq, Eq, Clone, Copy, Structural)]
pub enum KeyOrder {
    Less,
    Equal,
    Greater,
}

/// Bytewise lexicographic order: the first differing byte decides; a
/// proper prefix comes first.
pub open spec fn lex_lt(a: Seq<u8>, b: Seq<u8>) -> bool
    decreases a.len(),
{
    if b.len() == 0 {
        false
    } else if a.len() == 0 {
        true
    } else if a[0] < b[0] {
        true
    } else if a[0] > b[0] {
        false
    } else {
        lex_lt(a.skip(1), b.skip(1))
    }
}

/// Nothing is below itself.
pub proof fn lemma_lex_irreflexive(a: Seq<u8>)
    ensures
        !lex_lt(a, a),
    decreases a.len(),
{
    if a.len() > 0 {
        lemma_lex_irreflexive(a.skip(1));
    }
}

/// The order is transitive.
pub proof fn lemma_lex_transitive(a: Seq<u8>, b: Seq<u8>, c: Seq<u8>)
    requires
        lex_lt(a, b),
        lex_lt(b, c),
    ensures
        lex_lt(a, c),
    decreases a.len(),
{
    if a.len() > 0 && b.len() > 0 && c.len() > 0 && a[0] == b[0] && b[0] == c[0] {
        lemma_lex_transitive(a.skip(1), b.skip(1), c.skip(1));
    }
}

/// At most one of `lex_lt(a, b)` and `lex_lt(b, a)` holds.
pub proof fn lemma_lex_asymmetric(a: Seq<u8>, b: Seq<u8>)
    ensures
        !(lex_lt(a, b) && lex_lt(b, a)),
    decreases a.len(),
{
    if a.len() > 0 && b.len() > 0 && a[0] == b[0] {
        lemma_lex_asymmetric(a.skip(1), b.skip(1));
    }
}

proof fn lemma_lex_common_prefix(a: Seq<u8>, b: Seq<u8>, i: int)
    requires
        0 <= i <= a.len(),
        i <= b.len(),
        forall|j: int| 0 <= j < i ==> a[j] == b[j],
    ensures
        i == a.len() && i < b.len() ==> lex_lt(a, b),
        i == b.len() && i < a.len() ==> lex_lt(b, a),
        i == a.len() && i == b.len() ==> a == b,
        i < a.len() && i < b.len() && a[i] < b[i] ==> lex_lt(a, b),
        i < a.len() && i < b.len() && a[i] > b[i] ==> lex_lt(b, a),
    decreases i,
{
    if i == 0 {
        if a.len() == 0 && b.len() == 0 {
            assert(a =~= b);
        }
    } else {
        assert(a.len() > 0 && b.len() > 0 && a[0] == b[0]);
        lemma_lex_common_prefix(a.skip(1), b.skip(1), i - 1);
        if i == a.len() && i == b.len() {
            assert(a.skip(1) == b.skip(1));
            assert(a =~= seq![a[0]] + a.skip(1));
            assert(b =~= seq![b[0]] + b.skip(1));
        }
    }
}

/// Decides the order of two keys.
pub fn key_cmp(a: &[u8], b: &[u8]) -> (o: KeyOrder)
    ensures
        o == KeyOrder::Less ==> lex_lt(a@, b@),
        o == KeyOrder::Equal ==> a@ == b@,
        o == KeyOrder::Greater ==> lex_lt(b@, a@),
{
    let mut i: usize = 0;
    while i < a.len() && i < b.len()
        invariant
            0 <= i <= a@.len(),
            i <= b@.len(),
            forall|j: int| 0 <= j < i ==> a@[j] == b@[j],
        decreases a@.len() - i,
    {
        if a[i] < b[i] {
            proof {
                lemma_lex_common_prefix(a@, b@, i as int);
            }
            return KeyOrder::Less;
        }
        if a[i] > b[i] {
            proof {
                lemma_lex_common_prefix(a@, b@, i as int);
            }
            return KeyOrder::Greater;
        }
        i = i + 1;
    }
    proof {
        lemma_lex_common_prefix(a@, b@, i as int);
    }
    if a.len() == b.len() {
        KeyOrder::Equal
    } else if a.len() < b.len() {
        KeyOrder::Less
    } else {
        KeyOrder::Greater
    }
}

/// Does `k` start with `p`?
pub open spec fn spec_has_prefix(k: Seq<u8>, p: Seq<u8>) -> bool {
    p.len() <= k.len() && k.subrange(0, p.len() as int) == p
}

/// Decides whether `k` starts with `p`.
pub fn has_prefix(k: &[u8], p: &[u8]) -> (r: bool)
    ensures
        r == spec_has_prefix(k@, p@),
{
    if p.len() > k.len() {
        assert(!spec_has_prefix(k@, p@));
        return false;
    }
    let mut i: usize = 0;
    while i < p.len()
        invariant
            0 <= i <= p@.len() <= k@.len(),
            forall|j: int| 0 <= j < i ==> k@[j] == p@[j],
        decreases p@.len() - i,
    {
        if k[i] != p[i] {
            assert(k@.subrange(0, p@.len() as int)[i as int] != p@[i as int]);
            return false;
        }
        i = i + 1;
    }
    assert(k@.subrange(0, p@.len() as int) =~= p@);
    true
}

} // verus!
