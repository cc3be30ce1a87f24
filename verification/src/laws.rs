//! The laws the stack obeys, stated over the model and proved.
//!
//! `push_all`, `pop_n` and `pop_payloads` iterate the state transitions of
//! the model, so each law speaks of whole sequences of operations: pops
//! return pushed values in reverse order and restore the starting state,
//! the count tracks pushes minus pops, the wrapping sum tracks the values
//! still held, and the listing partitions the occupied keys at 0x20.

use crate::codec::enc_item;
use crate::model::{
    all_decodable, asc_keys, can_push, count_all, lemma_asc_len, lemma_asc_membership,
    lemma_asc_vacant, lemma_occ_key, lemma_push_count_sum, lemma_push_pop, max_key, occ,
    pop_payload, spec_pop, spec_push, stack_empty, sum_all, wf,
};
use vstd::prelude::*;
use vstd::wrapping::i32_specs;

verus! {

/// The state after pushing each value of `vs`, first value first.
pub open spec fn push_all(m: Map<Seq<u8>, Seq<u8>>, vs: Seq<i32>) -> Map<Seq<u8>, Seq<u8>>
    decreases vs.len(),
{
    if vs.len() == 0 {
        m
    } else {
        spec_push(push_all(m, vs.drop_last()), vs.last())
    }
}

/// The state after `n` pops.
pub open spec fn pop_n(m: Map<Seq<u8>, Seq<u8>>, n: nat) -> Map<Seq<u8>, Seq<u8>>
    decreases n,
{
    if n == 0 {
        m
    } else {
        pop_n(spec_pop(m), (n - 1) as nat)
    }
}

/// The payloads that `n` successive pops hand back, in popping order.
pub open spec fn pop_payloads(m: Map<Seq<u8>, Seq<u8>>, n: nat) -> Seq<Option<Seq<u8>>>
    decreases n,
{
    if n == 0 {
        Seq::empty()
    } else {
        seq![pop_payload(m)] + pop_payloads(spec_pop(m), (n - 1) as nat)
    }
}

/// Whether `n` more pushes all find room in the one-byte key space.
pub open spec fn room_for(m: Map<Seq<u8>, Seq<u8>>, n: nat) -> bool {
    if stack_empty(m) {
        n <= 256
    } else {
        max_key(m) + n <= 255
    }
}

/// A sequence of values folded from `acc` with wrapping 32-bit signed
/// addition.
pub open spec fn wrap_sum_from(acc: i32, vs: Seq<i32>) -> i32
    decreases vs.len(),
{
    if vs.len() == 0 {
        acc
    } else {
        i32_specs::wrapping_add(wrap_sum_from(acc, vs.drop_last()), vs.last())
    }
}

/// The wrapping 32-bit signed sum of a sequence of values.
pub open spec fn wrap_sum(vs: Seq<i32>) -> i32 {
    wrap_sum_from(0, vs)
}

/// The empty store is a well-formed stack with no entries, count 0 and
/// sum 0.
pub proof fn lemma_empty_state()
    ensures
        wf(Map::<Seq<u8>, Seq<u8>>::empty()),
        stack_empty(Map::<Seq<u8>, Seq<u8>>::empty()),
        count_all(Map::<Seq<u8>, Seq<u8>>::empty()) == 0,
        sum_all(Map::<Seq<u8>, Seq<u8>>::empty()) == 0,
        all_decodable(Map::<Seq<u8>, Seq<u8>>::empty()),
{
    let m = Map::<Seq<u8>, Seq<u8>>::empty();
    assert(m.dom() =~= Set::<Seq<u8>>::empty());
    lemma_asc_vacant(m, 0, 256);
    assert(asc_keys(m, 0, 256) == Seq::<u8>::empty());
}

/// The one-byte key space caps the stack: no state holds more than 256
/// entries.
pub proof fn lemma_capacity(m: Map<Seq<u8>, Seq<u8>>)
    ensures
        count_all(m) <= 256,
{
    lemma_asc_len(m, 0, 256);
}

/// Pushing a whole sequence keeps the stack well formed, raises the top key
/// and the count by the number of pushes, and folds every pushed value into
/// the wrapping sum.
pub proof fn lemma_push_all(m: Map<Seq<u8>, Seq<u8>>, vs: Seq<i32>)
    requires
        wf(m),
        room_for(m, vs.len()),
    ensures
        wf(push_all(m, vs)),
        !stack_empty(m) ==> !stack_empty(push_all(m, vs)) && max_key(push_all(m, vs)) == max_key(m)
            + vs.len(),
        stack_empty(m) && vs.len() > 0 ==> !stack_empty(push_all(m, vs)) && max_key(
            push_all(m, vs),
        ) + 1 == vs.len(),
        count_all(push_all(m, vs)) == count_all(m) + vs.len(),
        sum_all(push_all(m, vs)) == wrap_sum_from(sum_all(m), vs),
        all_decodable(m) ==> all_decodable(push_all(m, vs)),
    decreases vs.len(),
{
    if vs.len() > 0 {
        lemma_push_all(m, vs.drop_last());
        let m1 = push_all(m, vs.drop_last());
        assert(can_push(m1)) by {
            if stack_empty(m) {
                if vs.len() == 1 {
                } else {
                    assert(max_key(m1) + 1 == vs.len() - 1);
                }
            } else {
                assert(max_key(m1) == max_key(m) + vs.len() - 1);
            }
        }
        lemma_push_pop(m1, vs.last());
        lemma_push_count_sum(m1, vs.last());
    }
}

/// Helper: after all but the last of `vs` are pushed, the next push still
/// fits.
proof fn lemma_room_step(m: Map<Seq<u8>, Seq<u8>>, vs: Seq<i32>)
    requires
        wf(m),
        room_for(m, vs.len()),
        vs.len() > 0,
    ensures
        room_for(m, (vs.len() - 1) as nat),
        wf(push_all(m, vs.drop_last())),
        can_push(push_all(m, vs.drop_last())),
{
    lemma_push_all(m, vs.drop_last());
    let m1 = push_all(m, vs.drop_last());
    if stack_empty(m) {
        if vs.len() > 1 {
            assert(max_key(m1) + 1 == vs.len() - 1);
        }
    } else {
        assert(max_key(m1) == max_key(m) + vs.len() - 1);
    }
}

/// Last in, first out: after the values of `vs` are pushed, the next
/// `vs.len()` pops return the encoded records of `vs` from the last pushed
/// value back to the first, and leave the stack exactly as it began.
pub proof fn lemma_lifo(m: Map<Seq<u8>, Seq<u8>>, vs: Seq<i32>)
    requires
        wf(m),
        room_for(m, vs.len()),
    ensures
        pop_n(push_all(m, vs), vs.len()) == m,
        pop_payloads(push_all(m, vs), vs.len()).len() == vs.len(),
        forall|i: int|
            0 <= i < vs.len() ==> pop_payloads(push_all(m, vs), vs.len())[i] == Option::Some(
                enc_item(vs[vs.len() - 1 - i]),
            ),
    decreases vs.len(),
{
    let n = vs.len();
    if n > 0 {
        lemma_room_step(m, vs);
        let m1 = push_all(m, vs.drop_last());
        let mf = push_all(m, vs);
        lemma_push_pop(m1, vs.last());
        assert(spec_pop(mf) == m1);
        assert(pop_n(mf, n) == pop_n(m1, (n - 1) as nat));
        lemma_lifo(m, vs.drop_last());
        let ps = pop_payloads(mf, n);
        let ps1 = pop_payloads(m1, (n - 1) as nat);
        assert(ps == seq![pop_payload(mf)] + ps1);
        assert forall|i: int| 0 <= i < n implies ps[i] == Option::Some(
            enc_item(vs[n - 1 - i]),
        ) by {
            if i == 0 {
                assert(ps[0] == pop_payload(mf));
                assert(pop_payload(mf) == Option::Some(enc_item(vs.last())));
            } else {
                assert(ps[i] == ps1[i - 1]);
                assert(ps1[i - 1] == Option::Some(enc_item(vs.drop_last()[n - 1 - i])));
                assert(vs.drop_last()[n - 1 - i] == vs[n - 1 - i]);
            }
        }
    }
}

/// Popping `n` times after pushing `vs` is the same as having pushed only
/// the first `vs.len() - n` values.
pub proof fn lemma_pop_n_push_all(m: Map<Seq<u8>, Seq<u8>>, vs: Seq<i32>, n: nat)
    requires
        wf(m),
        room_for(m, vs.len()),
        n <= vs.len(),
    ensures
        pop_n(push_all(m, vs), n) == push_all(m, vs.take(vs.len() - n)),
    decreases n,
{
    if n == 0 {
        assert(vs.take(vs.len() as int) =~= vs);
    } else {
        lemma_room_step(m, vs);
        let m1 = push_all(m, vs.drop_last());
        let mf = push_all(m, vs);
        lemma_push_pop(m1, vs.last());
        assert(spec_pop(mf) == m1);
        assert(pop_n(mf, n) == pop_n(m1, (n - 1) as nat));
        lemma_pop_n_push_all(m, vs.drop_last(), (n - 1) as nat);
        assert(vs.drop_last().take(vs.len() - n) =~= vs.take(vs.len() - n));
    }
}

/// The count after `vs.len()` pushes and `npops` pops from an empty store
/// is pushes minus pops.
pub proof fn lemma_count_after(vs: Seq<i32>, npops: nat)
    requires
        vs.len() <= 256,
        npops <= vs.len(),
    ensures
        count_all(pop_n(push_all(Map::empty(), vs), npops)) == vs.len() - npops,
{
    let m = Map::<Seq<u8>, Seq<u8>>::empty();
    lemma_empty_state();
    lemma_pop_n_push_all(m, vs, npops);
    assert(vs.take(vs.len() - npops).len() <= 256);
    lemma_push_all(m, vs.take(vs.len() - npops));
}

/// The sum after `vs.len()` pushes and `npops` pops from an empty store is
/// the wrapping sum of the values still held: the first
/// `vs.len() - npops` pushed.
pub proof fn lemma_sum_after(vs: Seq<i32>, npops: nat)
    requires
        vs.len() <= 256,
        npops <= vs.len(),
    ensures
        sum_all(pop_n(push_all(Map::empty(), vs), npops)) == wrap_sum(
            vs.take(vs.len() - npops),
        ),
{
    let m = Map::<Seq<u8>, Seq<u8>>::empty();
    lemma_empty_state();
    lemma_pop_n_push_all(m, vs, npops);
    lemma_push_all(m, vs.take(vs.len() - npops));
}

/// The listing partitions the occupied keys at 0x20: `early` holds exactly
/// the occupied keys below it, `late` exactly the rest, no key is in both,
/// and every stored key is in one of the two.
pub proof fn lemma_list_partition(m: Map<Seq<u8>, Seq<u8>>)
    requires
        wf(m),
    ensures
        forall|b: u8| #[trigger] asc_keys(m, 0, 0x20).contains(b) <==> (occ(m, b) && b < 0x20),
        forall|b: u8| #[trigger] asc_keys(m, 0x20, 256).contains(b) <==> (occ(m, b) && b >= 0x20),
        forall|b: u8|
            #[trigger] asc_keys(m, 0, 0x20).contains(b) ==> !asc_keys(m, 0x20, 256).contains(b),
        forall|k: Seq<u8>|
            #[trigger] m.dom().contains(k) ==> asc_keys(m, 0, 0x20).contains(k[0]) || asc_keys(
                m,
                0x20,
                256,
            ).contains(k[0]),
{
    lemma_asc_membership(m, 0, 0x20);
    lemma_asc_membership(m, 0x20, 256);
    assert forall|k: Seq<u8>| #[trigger] m.dom().contains(k) implies asc_keys(
        m,
        0,
        0x20,
    ).contains(k[0]) || asc_keys(m, 0x20, 256).contains(k[0]) by {
        lemma_occ_key(m, k);
    }
}

} // verus!

