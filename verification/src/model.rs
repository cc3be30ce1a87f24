//! The mathematical model of a stack state.
//!
//! A state is the store's contents: a map from key bytes to value bytes.
//! The component keeps every key a single byte, so a state is described by
//! which of the 256 byte keys are occupied (`occ`) and by the bytes each
//! occupied key holds. `asc_keys` enumerates the occupied keys of a range in
//! ascending order; the counting and summing specifications fold over it.
//! `spec_push` and `spec_pop` are the state transitions that the executable
//! operations are proved to realize.

use crate::codec::{dec_item, decodes, enc_item};
use vstd::prelude::*;
use vstd::wrapping::i32_specs;

verus! {

/// Whether the byte key `b` is occupied.
pub open spec fn occ(m: Map<Seq<u8>, Seq<u8>>, b: u8) -> bool {
    m.dom().contains(seq![b])
}

/// Well-formedness of a state: every key present is a single byte. The
/// component writes no other keys.
pub open spec fn wf(m: Map<Seq<u8>, Seq<u8>>) -> bool {
    forall|k: Seq<u8>| #[trigger] m.dom().contains(k) ==> k.len() == 1
}

/// Whether the stack holds no entry.
pub open spec fn stack_empty(m: Map<Seq<u8>, Seq<u8>>) -> bool {
    m.dom() =~= Set::<Seq<u8>>::empty()
}

/// `b` is an occupied key and no occupied key exceeds it.
pub open spec fn is_max_key(m: Map<Seq<u8>, Seq<u8>>, b: u8) -> bool {
    occ(m, b) && forall|j: u8| #[trigger] occ(m, j) ==> j <= b
}

/// The greatest occupied key: the top of the stack.
pub open spec fn max_key(m: Map<Seq<u8>, Seq<u8>>) -> u8 {
    choose|b: u8| is_max_key(m, b)
}

/// Two single-byte keys are the same exactly when their bytes are.
pub proof fn lemma_single_eq(a: u8, b: u8)
    ensures
        (seq![a] == seq![b]) <==> a == b,
{
    if a == b {
        assert(seq![a] =~= seq![b]);
    } else {
        assert(seq![a][0] == a);
        assert(seq![b][0] == b);
    }
}

/// A key present in a well-formed state is one byte long, and that byte is
/// occupied.
pub proof fn lemma_occ_key(m: Map<Seq<u8>, Seq<u8>>, k: Seq<u8>)
    requires
        wf(m),
        m.dom().contains(k),
    ensures
        k.len() == 1,
        k == seq![k[0]],
        occ(m, k[0]),
{
    assert(k =~= seq![k[0]]);
}

proof fn lemma_max_exists_above(m: Map<Seq<u8>, Seq<u8>>, b: u8)
    requires
        occ(m, b),
    ensures
        exists|x: u8| is_max_key(m, x),
    decreases 255 - b,
{
    if forall|j: u8| #[trigger] occ(m, j) ==> j <= b {
        assert(is_max_key(m, b));
    } else {
        let j = choose|j: u8| occ(m, j) && !(j <= b);
        lemma_max_exists_above(m, j);
    }
}

/// A nonempty well-formed state has a greatest occupied key.
pub proof fn lemma_max_key(m: Map<Seq<u8>, Seq<u8>>)
    requires
        wf(m),
        !stack_empty(m),
    ensures
        is_max_key(m, max_key(m)),
{
    assert(exists|k: Seq<u8>| m.dom().contains(k)) by {
        if forall|k: Seq<u8>| !(#[trigger] m.dom().contains(k)) {
            assert(m.dom() =~= Set::<Seq<u8>>::empty());
        }
    }
    let k = choose|k: Seq<u8>| m.dom().contains(k);
    lemma_occ_key(m, k);
    lemma_max_exists_above(m, k[0]);
}

/// Any key that `is_max_key` accepts is the `max_key`.
pub proof fn lemma_max_is(m: Map<Seq<u8>, Seq<u8>>, b: u8)
    requires
        is_max_key(m, b),
    ensures
        max_key(m) == b,
        is_max_key(m, max_key(m)),
{
    assert(is_max_key(m, max_key(m)));
    assert(occ(m, b) && occ(m, max_key(m)));
}

/// The occupied keys in `[lo, hi)`, in ascending order.
pub open spec fn asc_keys(m: Map<Seq<u8>, Seq<u8>>, lo: int, hi: int) -> Seq<u8>
    decreases hi - lo,
{
    if lo >= hi {
        Seq::empty()
    } else if occ(m, lo as u8) {
        seq![lo as u8] + asc_keys(m, lo + 1, hi)
    } else {
        asc_keys(m, lo + 1, hi)
    }
}

pub proof fn lemma_asc_len(m: Map<Seq<u8>, Seq<u8>>, lo: int, hi: int)
    requires
        lo <= hi,
    ensures
        asc_keys(m, lo, hi).len() <= hi - lo,
    decreases hi - lo,
{
    if lo < hi {
        lemma_asc_len(m, lo + 1, hi);
    }
}

/// A byte is enumerated exactly when it is occupied and lies in the range.
pub proof fn lemma_asc_membership(m: Map<Seq<u8>, Seq<u8>>, lo: int, hi: int)
    requires
        0 <= lo <= hi <= 256,
    ensures
        forall|b: u8| #[trigger] asc_keys(m, lo, hi).contains(b) <==> (occ(m, b) && lo <= b < hi),
    decreases hi - lo,
{
    if lo >= hi {
        assert forall|b: u8| !(#[trigger] asc_keys(m, lo, hi).contains(b)) by {
            assert(asc_keys(m, lo, hi).len() == 0);
        }
    } else {
        lemma_asc_membership(m, lo + 1, hi);
        let tail = asc_keys(m, lo + 1, hi);
        if occ(m, lo as u8) {
            let s = asc_keys(m, lo, hi);
            assert(s == seq![lo as u8] + tail);
            assert forall|b: u8| #[trigger] s.contains(b) implies (occ(m, b) && lo <= b < hi) by {
                let i = choose|i: int| 0 <= i < s.len() && s[i] == b;
                if i == 0 {
                    assert(b == lo as u8);
                } else {
                    assert(tail[i - 1] == b);
                    assert(tail.contains(b));
                }
            }
            assert forall|b: u8| occ(m, b) && lo <= b < hi implies #[trigger] s.contains(b) by {
                if b == lo as u8 {
                    assert(s[0] == b);
                } else {
                    assert(tail.contains(b));
                    let i = choose|i: int| 0 <= i < tail.len() && tail[i] == b;
                    assert(s[i + 1] == b);
                }
            }
        } else {
            assert(asc_keys(m, lo, hi) == tail);
            assert forall|b: u8| #[trigger] asc_keys(m, lo, hi).contains(b) <==> (occ(m, b) && lo
                <= b < hi) by {
                if b == lo as u8 && lo <= b < hi {
                    assert(!occ(m, b));
                }
            }
        }
    }
}

/// A range holding no occupied key enumerates nothing.
pub proof fn lemma_asc_vacant(m: Map<Seq<u8>, Seq<u8>>, lo: int, hi: int)
    requires
        0 <= lo <= hi <= 256,
        forall|j: u8| #[trigger] occ(m, j) ==> !(lo <= j < hi),
    ensures
        asc_keys(m, lo, hi) == Seq::<u8>::empty(),
    decreases hi - lo,
{
    if lo < hi {
        assert(!occ(m, lo as u8));
        lemma_asc_vacant(m, lo + 1, hi);
    }
}

/// Inserting a key above every occupied key appends it to the enumeration.
pub proof fn lemma_asc_insert_above(
    m: Map<Seq<u8>, Seq<u8>>,
    lo: int,
    hi: int,
    k: u8,
    v: Seq<u8>,
)
    requires
        0 <= lo <= hi <= 256,
        lo <= k < hi,
        forall|j: u8| #[trigger] occ(m, j) ==> j < k,
    ensures
        asc_keys(m.insert(seq![k], v), lo, hi) == asc_keys(m, lo, hi).push(k),
    decreases hi - lo,
{
    let m2 = m.insert(seq![k], v);
    assert forall|b: u8| #[trigger] occ(m2, b) <==> (occ(m, b) || b == k) by {
        lemma_single_eq(b, k);
    }
    if lo == k {
        assert(occ(m2, k));
        assert(!occ(m, k));
        lemma_asc_vacant(m2, k + 1, hi);
        lemma_asc_vacant(m, k as int, hi);
        assert(asc_keys(m2, lo, hi) == seq![k] + asc_keys(m2, k + 1, hi));
        assert(asc_keys(m2, lo, hi) =~= Seq::<u8>::empty().push(k));
        assert(asc_keys(m, lo, hi).push(k) =~= Seq::<u8>::empty().push(k));
    } else {
        lemma_asc_insert_above(m, lo + 1, hi, k, v);
        assert(occ(m2, lo as u8) <==> occ(m, lo as u8));
        if occ(m, lo as u8) {
            assert(asc_keys(m2, lo, hi) == seq![lo as u8] + asc_keys(m2, lo + 1, hi));
            assert(seq![lo as u8] + asc_keys(m, lo + 1, hi).push(k) =~= (seq![lo as u8] + asc_keys(
                m,
                lo + 1,
                hi,
            )).push(k));
        }
    }
}

/// The keys a sorted, complete listing holds are the ascending enumeration.
pub proof fn lemma_sorted_complete(m: Map<Seq<u8>, Seq<u8>>, bs: Seq<u8>, lo: int, hi: int)
    requires
        0 <= lo <= hi <= 256,
        forall|i: int| 0 <= i < bs.len() ==> lo <= #[trigger] bs[i] < hi,
        forall|i: int, j: int| 0 <= i < j < bs.len() ==> bs[i] < bs[j],
        forall|b: u8| lo <= b < hi ==> (#[trigger] occ(m, b) <==> bs.contains(b)),
    ensures
        bs == asc_keys(m, lo, hi),
    decreases hi - lo,
{
    if lo >= hi {
        if bs.len() > 0 {
            assert(lo <= bs[0] < hi);
        }
        assert(bs =~= asc_keys(m, lo, hi));
    } else if occ(m, lo as u8) {
        assert(bs.contains(lo as u8));
        let i = choose|i: int| 0 <= i < bs.len() && bs[i] == lo as u8;
        if i > 0 {
            assert(bs[0] < bs[i]);
            assert(false);
        }
        assert(bs[0] == lo as u8);
        let tail = bs.subrange(1, bs.len() as int);
        assert forall|b: u8| lo + 1 <= b < hi implies (#[trigger] occ(m, b) <==> tail.contains(
            b,
        )) by {
            if occ(m, b) {
                assert(bs.contains(b));
                let j = choose|j: int| 0 <= j < bs.len() && bs[j] == b;
                if j == 0 {
                    assert(false);
                }
                assert(tail[j - 1] == b);
                assert(tail.contains(b));
            }
            if tail.contains(b) {
                let j = choose|j: int| 0 <= j < tail.len() && tail[j] == b;
                assert(bs[j + 1] == b);
                assert(bs.contains(b));
            }
        }
        lemma_sorted_complete(m, tail, lo + 1, hi);
        assert(asc_keys(m, lo, hi) == seq![lo as u8] + tail);
        assert(bs =~= seq![lo as u8] + tail);
    } else {
        assert forall|i: int| 0 <= i < bs.len() implies lo + 1 <= #[trigger] bs[i] < hi by {
            if bs[i] == lo as u8 {
                assert(bs.contains(lo as u8));
            }
        }
        lemma_sorted_complete(m, bs, lo + 1, hi);
        assert(asc_keys(m, lo, hi) == asc_keys(m, lo + 1, hi));
    }
}

/// The record value stored under an occupied key.
pub open spec fn item_val(m: Map<Seq<u8>, Seq<u8>>, b: u8) -> i32 {
    dec_item(m[seq![b]])
}

/// Every stored value decodes into the record shape.
pub open spec fn all_decodable(m: Map<Seq<u8>, Seq<u8>>) -> bool {
    forall|b: u8| #[trigger] occ(m, b) ==> decodes(m[seq![b]])
}

/// The values stored under the listed keys, folded left with wrapping
/// 32-bit signed addition.
pub open spec fn sum_over(m: Map<Seq<u8>, Seq<u8>>, ks: Seq<u8>) -> i32
    decreases ks.len(),
{
    if ks.len() == 0 {
        0
    } else {
        i32_specs::wrapping_add(sum_over(m, ks.drop_last()), item_val(m, ks.last()))
    }
}

/// How many entries the stack holds.
pub open spec fn count_all(m: Map<Seq<u8>, Seq<u8>>) -> nat {
    asc_keys(m, 0, 256).len()
}

/// The wrapping sum of every stored entry, folded in ascending key order.
pub open spec fn sum_all(m: Map<Seq<u8>, Seq<u8>>) -> i32 {
    sum_over(m, asc_keys(m, 0, 256))
}

/// The fold ignores keys it does not visit: states agreeing on the listed
/// keys sum alike.
pub proof fn lemma_sum_over_frame(m1: Map<Seq<u8>, Seq<u8>>, m2: Map<Seq<u8>, Seq<u8>>, ks: Seq<u8>)
    requires
        forall|i: int| 0 <= i < ks.len() ==> m1[seq![#[trigger] ks[i]]] == m2[seq![ks[i]]],
    ensures
        sum_over(m1, ks) == sum_over(m2, ks),
    decreases ks.len(),
{
    if ks.len() > 0 {
        assert(forall|i: int|
            0 <= i < ks.drop_last().len() ==> #[trigger] ks.drop_last()[i] == ks[i]);
        lemma_sum_over_frame(m1, m2, ks.drop_last());
        assert(ks.last() == ks[ks.len() - 1]);
    }
}

/// The key a push allocates: one past the current maximum, or the first key
/// on an empty stack.
pub open spec fn alloc_key(m: Map<Seq<u8>, Seq<u8>>) -> u8 {
    if stack_empty(m) {
        0u8
    } else {
        (max_key(m) + 1) as u8
    }
}

/// Whether a push can allocate a fresh key: the key space overflows exactly
/// when key 255 is the current maximum.
pub open spec fn can_push(m: Map<Seq<u8>, Seq<u8>>) -> bool {
    stack_empty(m) || max_key(m) < 255
}

/// The state after pushing `v`: the encoded record sits under the allocated
/// key.
pub open spec fn spec_push(m: Map<Seq<u8>, Seq<u8>>, v: i32) -> Map<Seq<u8>, Seq<u8>> {
    m.insert(seq![alloc_key(m)], enc_item(v))
}

/// The state after a pop: the greatest key is gone; an empty stack is left
/// alone.
pub open spec fn spec_pop(m: Map<Seq<u8>, Seq<u8>>) -> Map<Seq<u8>, Seq<u8>> {
    if stack_empty(m) {
        m
    } else {
        m.remove(seq![max_key(m)])
    }
}

/// What a pop hands back: the bytes stored under the greatest key, or
/// nothing from an empty stack.
pub open spec fn pop_payload(m: Map<Seq<u8>, Seq<u8>>) -> Option<Seq<u8>> {
    if stack_empty(m) {
        Option::None
    } else {
        Option::Some(m[seq![max_key(m)]])
    }
}

/// A push writes a fresh key above every occupied one, and an immediate pop
/// undoes it and returns exactly the pushed record.
pub proof fn lemma_push_pop(m: Map<Seq<u8>, Seq<u8>>, v: i32)
    requires
        wf(m),
        can_push(m),
    ensures
        wf(spec_push(m, v)),
        !stack_empty(spec_push(m, v)),
        !occ(m, alloc_key(m)),
        forall|j: u8| #[trigger] occ(m, j) ==> j < alloc_key(m),
        is_max_key(spec_push(m, v), alloc_key(m)),
        max_key(spec_push(m, v)) == alloc_key(m),
        spec_pop(spec_push(m, v)) == m,
        pop_payload(spec_push(m, v)) == Option::Some(enc_item(v)),
{
    let k = alloc_key(m);
    let m2 = spec_push(m, v);
    if stack_empty(m) {
        assert forall|j: u8| !(#[trigger] occ(m, j)) by {
            assert(!m.dom().contains(seq![j]));
        }
    } else {
        lemma_max_key(m);
        assert(max_key(m) < 255);
        assert(k == max_key(m) + 1);
    }
    assert(!occ(m, k));
    assert(forall|j: u8| #[trigger] occ(m, j) ==> j < k);
    assert forall|b: u8| #[trigger] occ(m2, b) <==> (occ(m, b) || b == k) by {
        lemma_single_eq(b, k);
    }
    assert(wf(m2)) by {
        assert forall|key: Seq<u8>| #[trigger] m2.dom().contains(key) implies key.len() == 1 by {
            if !m.dom().contains(key) {
                assert(key == seq![k]);
            }
        }
    }
    assert(occ(m2, k));
    assert(!stack_empty(m2)) by {
        assert(m2.dom().contains(seq![k]));
    }
    assert(is_max_key(m2, k));
    lemma_max_is(m2, k);
    assert(spec_pop(m2) == m2.remove(seq![k]));
    assert(m2.remove(seq![k]) =~= m);
    assert(pop_payload(m2) == Option::Some(enc_item(v)));
}

/// A push raises the count by one and adds the pushed value to the wrapping
/// sum; it cannot spoil decodability.
pub proof fn lemma_push_count_sum(m: Map<Seq<u8>, Seq<u8>>, v: i32)
    requires
        wf(m),
        can_push(m),
    ensures
        count_all(spec_push(m, v)) == count_all(m) + 1,
        sum_all(spec_push(m, v)) == i32_specs::wrapping_add(sum_all(m), v),
        all_decodable(m) ==> all_decodable(spec_push(m, v)),
{
    let k = alloc_key(m);
    let m2 = spec_push(m, v);
    lemma_push_pop(m, v);
    lemma_asc_insert_above(m, 0, 256, k, enc_item(v));
    let asc = asc_keys(m, 0, 256);
    assert(asc_keys(m2, 0, 256) == asc.push(k));
    assert(asc.push(k).len() == asc.len() + 1);
    assert(asc.push(k).drop_last() =~= asc);
    assert(asc.push(k).last() == k);
    assert(sum_all(m2) == i32_specs::wrapping_add(sum_over(m2, asc), item_val(m2, k)));
    assert(sum_over(m2, asc) == sum_over(m, asc)) by {
        lemma_asc_membership(m, 0, 256);
        assert forall|i: int| 0 <= i < asc.len() implies m2[seq![#[trigger] asc[i]]] == m[seq![
            asc[i],
        ]] by {
            assert(asc.contains(asc[i]));
            assert(occ(m, asc[i]));
            assert(asc[i] != k);
            lemma_single_eq(asc[i], k);
        }
        lemma_sum_over_frame(m2, m, asc);
    }
    assert(item_val(m2, k) == v) by {
        assert(m2[seq![k]] == enc_item(v));
        crate::codec::lemma_codec_round_trip(v);
    }
    assert(all_decodable(m) ==> all_decodable(m2)) by {
        if all_decodable(m) {
            assert forall|b: u8| #[trigger] occ(m2, b) implies decodes(m2[seq![b]]) by {
                lemma_single_eq(b, k);
                if b == k {
                    crate::codec::lemma_codec_round_trip(v);
                } else {
                    assert(occ(m, b));
                }
            }
        }
    }
}

/// A pop lowers the count by one and takes the popped value off the
/// wrapping sum; it cannot spoil decodability.
pub proof fn lemma_pop_count_sum(m: Map<Seq<u8>, Seq<u8>>)
    requires
        wf(m),
        !stack_empty(m),
    ensures
        wf(spec_pop(m)),
        count_all(spec_pop(m)) == count_all(m) - 1,
        sum_all(m) == i32_specs::wrapping_add(sum_all(spec_pop(m)), item_val(m, max_key(m))),
        all_decodable(m) ==> all_decodable(spec_pop(m)),
        forall|j: u8| #[trigger] occ(spec_pop(m), j) ==> j < max_key(m),
{
    lemma_max_key(m);
    let k = max_key(m);
    let m0 = spec_pop(m);
    assert(m0 == m.remove(seq![k]));
    assert forall|b: u8| #[trigger] occ(m0, b) <==> (occ(m, b) && b != k) by {
        lemma_single_eq(b, k);
    }
    assert(wf(m0)) by {
        assert(forall|key: Seq<u8>| #[trigger] m0.dom().contains(key) ==> m.dom().contains(key));
    }
    assert(forall|j: u8| #[trigger] occ(m0, j) ==> j < k);
    assert(m0.insert(seq![k], m[seq![k]]) =~= m);
    lemma_asc_insert_above(m0, 0, 256, k, m[seq![k]]);
    let asc0 = asc_keys(m0, 0, 256);
    assert(asc_keys(m, 0, 256) == asc0.push(k));
    assert(asc0.push(k).drop_last() =~= asc0);
    assert(sum_all(m) == i32_specs::wrapping_add(sum_over(m, asc0), item_val(m, k)));
    assert(sum_over(m, asc0) == sum_over(m0, asc0)) by {
        lemma_asc_membership(m0, 0, 256);
        assert forall|i: int| 0 <= i < asc0.len() implies m[seq![#[trigger] asc0[i]]] == m0[seq![
            asc0[i],
        ]] by {
            assert(asc0.contains(asc0[i]));
            assert(occ(m0, asc0[i]));
            assert(asc0[i] != k);
            lemma_single_eq(asc0[i], k);
        }
        lemma_sum_over_frame(m, m0, asc0);
    }
    assert(all_decodable(m) ==> all_decodable(m0)) by {
        if all_decodable(m) {
            assert forall|b: u8| #[trigger] occ(m0, b) implies decodes(m0[seq![b]]) by {
                assert(occ(m, b));
                lemma_single_eq(b, k);
            }
        }
    }
}

} // verus!
