//! The ordered key-value store that holds the stack.
//!
//! The store is `cosmwasm_std::MemoryStorage`: point set/remove plus range
//! iteration over keys in lexicographic byte order, with an inclusive start
//! bound and an exclusive end bound. Verified code sees the store through
//! `store_view`, a map from key bytes to value bytes, and reaches it only
//! through the trusted wrappers below.

use cosmwasm_std::Storage;
use vstd::prelude::*;

verus! {

#[verifier::external_type_specification]
#[verifier::external_body]
pub struct ExMemoryStorage(cosmwasm_std::MemoryStorage);

/// The contents of the store: which byte-string keys are present and what
/// bytes each holds.
pub uninterp spec fn store_view(s: cosmwasm_std::MemoryStorage) -> Map<Seq<u8>, Seq<u8>>;

/// Strict lexicographic order on byte strings: the order the store's range
/// queries compare raw keys by. A proper prefix comes before its extensions.
pub open spec fn lex_lt(a: Seq<u8>, b: Seq<u8>) -> bool
    decreases a.len(),
{
    if b.len() == 0 {
        false
    } else if a.len() == 0 {
        true
    } else if a[0] < b[0] {
        true
    } else if a[0] > b[0] {
        false
    } else {
        lex_lt(a.skip(1), b.skip(1))
    }
}

pub open spec fn lex_le(a: Seq<u8>, b: Seq<u8>) -> bool {
    lex_lt(a, b) || a == b
}

/// Whether a key lies within an inclusive start bound and an exclusive end
/// bound, either of which may be absent.
pub open spec fn key_in_range(k: Seq<u8>, start: Option<Seq<u8>>, end: Option<Seq<u8>>) -> bool {
    &&& match start {
        Option::None => true,
        Option::Some(s) => lex_le(s, k),
    }
    &&& match end {
        Option::None => true,
        Option::Some(e) => lex_lt(k, e),
    }
}

/// The bound a range query was called with, as a byte sequence.
pub open spec fn bound_view(o: Option<&Vec<u8>>) -> Option<Seq<u8>> {
    match o {
        Option::None => Option::None,
        Option::Some(v) => Option::Some(v@),
    }
}

/// On single-byte keys the lexicographic order is the byte order.
pub proof fn lemma_lex_single(a: u8, b: u8)
    ensures
        lex_lt(seq![a], seq![b]) <==> a < b,
        lex_le(seq![a], seq![b]) <==> a <= b,
{
    let sa = seq![a];
    let sb = seq![b];
    assert(sa.len() == 1 && sb.len() == 1);
    if a == b {
        assert(sa =~= sb);
        assert(sa.skip(1).len() == 0 && sb.skip(1).len() == 0);
        assert(!lex_lt(sa.skip(1), sb.skip(1)));
        assert(!lex_lt(sa, sb));
    } else {
        assert(sa[0] == a && sb[0] == b);
        if a < b {
            assert(lex_lt(sa, sb));
        } else {
            assert(!lex_lt(sa, sb));
            assert(sa != sb) by {
                assert(sa[0] != sb[0]);
            }
        }
    }
}

/// Relies on Storage::set for MemoryStorage: inserts the pair into the
/// backing ordered map, overwriting any value the key held. Set panics on an
/// empty value, so the contract rules one out.
#[verifier::external_body]
pub(crate) fn store_set(s: &mut cosmwasm_std::MemoryStorage, key: u8, value: &Vec<u8>)
    requires
        value@.len() > 0,
    ensures
        store_view(*final(s)) == store_view(*old(s)).insert(seq![key], value@),
{
    s.set(&[key], value.as_slice());
}

/// Relies on Storage::remove for MemoryStorage: removes the key from the
/// backing ordered map; absent keys are left alone.
#[verifier::external_body]
pub(crate) fn store_remove(s: &mut cosmwasm_std::MemoryStorage, key: u8)
    ensures
        store_view(*final(s)) == store_view(*old(s)).remove(seq![key]),
{
    s.remove(&[key]);
}

/// Relies on Storage::range for MemoryStorage, ascending: yields exactly the
/// stored pairs whose keys lie in the bounds, in ascending lexicographic key
/// order (the backing map iterates its ordered keys; an inverted range is
/// empty).
#[verifier::external_body]
pub(crate) fn range_ascending(
    s: &cosmwasm_std::MemoryStorage,
    start: Option<&Vec<u8>>,
    end: Option<&Vec<u8>>,
) -> (r: Vec<(Vec<u8>, Vec<u8>)>)
    ensures
        forall|i: int|
            0 <= i < r@.len() ==> {
                &&& store_view(*s).dom().contains(#[trigger] r@[i].0@)
                &&& store_view(*s)[r@[i].0@] == r@[i].1@
                &&& key_in_range(r@[i].0@, bound_view(start), bound_view(end))
            },
        forall|i: int, j: int| 0 <= i < j < r@.len() ==> lex_lt(#[trigger] r@[i].0@, #[trigger] r@[j].0@),
        forall|k: Seq<u8>|
            #[trigger] store_view(*s).dom().contains(k) && key_in_range(
                k,
                bound_view(start),
                bound_view(end),
            ) ==> exists|i: int| 0 <= i < r@.len() && r@[i].0@ == k,
{
    let start_b = start.map(|v| v.as_slice());
    let end_b = end.map(|v| v.as_slice());
    s.range(start_b, end_b, cosmwasm_std::Order::Ascending).collect()
}

/// Relies on Storage::range for MemoryStorage, descending: its first record
/// is the stored pair with the greatest key, and there is none exactly when
/// the store is empty.
#[verifier::external_body]
pub(crate) fn last_entry(s: &cosmwasm_std::MemoryStorage) -> (r: Option<(Vec<u8>, Vec<u8>)>)
    ensures
        match r {
            Option::None => store_view(*s).dom() =~= Set::<Seq<u8>>::empty(),
            Option::Some(e) => {
                &&& store_view(*s).dom().contains(e.0@)
                &&& store_view(*s)[e.0@] == e.1@
                &&& forall|k: Seq<u8>| #[trigger] store_view(*s).dom().contains(k) ==> lex_le(k, e.0@)
            },
        },
{
    let mut it = s.range(None, None, cosmwasm_std::Order::Descending);
    it.next()
}

} // verus!
