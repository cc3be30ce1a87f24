//! The stack operations and the commands that drive them.
//!
//! Every operation takes the store handle explicitly. Push allocates the key
//! one past the greatest occupied key and writes the encoded record there;
//! pop removes the greatest occupied key and hands back its raw bytes; the
//! queries traverse the stored key range: count and sum walk the whole
//! keyspace ascending, and list probes the range bounds around key 0x20.

use crate::codec::{decodes, enc_item, Item, StackError};
use crate::model::{
    all_decodable, alloc_key, asc_keys, can_push, count_all, is_max_key, item_val, lemma_asc_len,
    lemma_max_is, lemma_occ_key, lemma_pop_count_sum, lemma_push_pop, lemma_sorted_complete, occ,
    pop_payload, spec_pop, spec_push, stack_empty, sum_all, sum_over, wf,
};
use crate::store::{
    bound_view, key_in_range, last_entry, lemma_lex_single, lex_le, lex_lt, range_ascending,
    store_remove, store_set, store_view,
};
use vstd::prelude::*;

verus! {

/// Push adds a value on top of the stack; Pop takes the top one off.
#[derive(Clone, Debug, PartialEq)]
pub enum ExecuteMsg {
    Push { value: i32 },
    Pop {},
}

#[derive(Clone, Debug, PartialEq)]
pub enum QueryMsg {
    /// How many entries the stack holds.
    Count {},
    /// The wrapping sum of every held value.
    Sum {},
    /// The raw keys, split by the range probes.
    List {},
}

#[derive(Clone, Debug, PartialEq)]
pub struct CountResponse {
    pub count: u32,
}

#[derive(Clone, Debug, PartialEq)]
pub struct SumResponse {
    pub sum: i32,
}

#[derive(Clone, Debug, PartialEq)]
pub struct ListResponse {
    /// A range with both bounds set that no single-byte key can enter.
    pub empty: Vec<u32>,
    /// All keys lower than 0x20.
    pub early: Vec<u32>,
    /// All keys starting from 0x20.
    pub late: Vec<u32>,
}

/// The answer a query returns, tagged like the query itself.
#[derive(Clone, Debug, PartialEq)]
pub enum QueryAnswer {
    Count(CountResponse),
    Sum(SumResponse),
    List(ListResponse),
}

/// An optional payload of raw bytes, as a sequence.
pub open spec fn opt_bytes_view(o: Option<Vec<u8>>) -> Option<Seq<u8>> {
    match o {
        Option::None => Option::None,
        Option::Some(v) => Option::Some(v@),
    }
}

/// The initialization entry point: performs no storage mutation and always
/// succeeds.
pub fn instantiate() -> (r: Result<(), StackError>)
    ensures
        r == Ok::<(), StackError>(()),
{
    Ok(())
}

/// Push a value: write the encoded record under the key one past the
/// current maximum, or under key 0 on an empty stack. Allocating past key
/// 255 is refused, leaving the store untouched.
pub fn push(store: &mut cosmwasm_std::MemoryStorage, value: i32) -> (r: Result<(), StackError>)
    requires
        wf(store_view(*old(store))),
    ensures
        wf(store_view(*final(store))),
        can_push(store_view(*old(store))) ==> r == Ok::<(), StackError>(()) && store_view(
            *final(store),
        ) == spec_push(store_view(*old(store)), value),
        !can_push(store_view(*old(store))) ==> r == Err::<(), StackError>(
            StackError::KeyOverflow,
        ) && store_view(*final(store)) == store_view(*old(store)),
{
    let ghost m0 = store_view(*store);
    let last = last_entry(store);
    match last {
        Option::None => {
            proof {
                assert(stack_empty(m0));
                assert(alloc_key(m0) == 0);
                lemma_push_pop(m0, value);
            }
            let bytes = encode_record(value);
            store_set(store, 0, &bytes);
            proof {
                assert(store_view(*store) == spec_push(m0, value));
            }
            Ok(())
        },
        Option::Some((k, _v)) => {
            proof {
                lemma_occ_key(m0, k@);
                assert(!stack_empty(m0)) by {
                    assert(m0.dom().contains(k@));
                }
            }
            let kb = k[0];
            proof {
                assert(k@ == seq![kb]);
                assert forall|j: u8| #[trigger] occ(m0, j) implies j <= kb by {
                    assert(lex_le(seq![j], k@));
                    lemma_lex_single(j, kb);
                }
                assert(is_max_key(m0, kb));
                lemma_max_is(m0, kb);
            }
            if kb == 255 {
                proof {
                    assert(!can_push(m0));
                }
                Err(StackError::KeyOverflow)
            } else {
                proof {
                    assert(can_push(m0));
                    assert(alloc_key(m0) == kb + 1);
                    lemma_push_pop(m0, value);
                }
                let bytes = encode_record(value);
                store_set(store, kb + 1, &bytes);
                proof {
                    assert(store_view(*store) == spec_push(m0, value));
                }
                Ok(())
            }
        },
    }
}

/// Pop the top entry: remove the greatest occupied key and return the raw
/// bytes it held. On an empty stack there is no payload and no error.
pub fn pop(store: &mut cosmwasm_std::MemoryStorage) -> (r: Option<Vec<u8>>)
    requires
        wf(store_view(*old(store))),
    ensures
        wf(store_view(*final(store))),
        store_view(*final(store)) == spec_pop(store_view(*old(store))),
        r is Some <==> !stack_empty(store_view(*old(store))),
        r matches Some(v) ==> Option::Some(v@) == pop_payload(store_view(*old(store))),
{
    let ghost m0 = store_view(*store);
    let last = last_entry(store);
    match last {
        Option::None => {
            proof {
                assert(stack_empty(m0));
                assert(spec_pop(m0) == m0);
            }
            None
        },
        Option::Some((k, v)) => {
            proof {
                lemma_occ_key(m0, k@);
                assert(!stack_empty(m0)) by {
                    assert(m0.dom().contains(k@));
                }
            }
            let kb = k[0];
            proof {
                assert(k@ == seq![kb]);
                assert forall|j: u8| #[trigger] occ(m0, j) implies j <= kb by {
                    assert(lex_le(seq![j], k@));
                    lemma_lex_single(j, kb);
                }
                assert(is_max_key(m0, kb));
                lemma_max_is(m0, kb);
                lemma_pop_count_sum(m0);
            }
            store_remove(store, kb);
            proof {
                assert(store_view(*store) == spec_pop(m0));
                assert(v@ == m0[seq![kb]]);
            }
            Some(v)
        },
    }
}

/// The keys of listed entries are the ascending enumeration of the occupied
/// range, byte for byte.
proof fn lemma_entries_asc(m: Map<Seq<u8>, Seq<u8>>, es: Seq<(Vec<u8>, Vec<u8>)>, lo: int, hi: int)
    requires
        wf(m),
        0 <= lo <= hi <= 256,
        forall|i: int| 0 <= i < es.len() ==> m.dom().contains(#[trigger] es[i].0@),
        forall|i: int, j: int|
            0 <= i < j < es.len() ==> lex_lt(#[trigger] es[i].0@, #[trigger] es[j].0@),
        forall|i: int| 0 <= i < es.len() ==> lo <= #[trigger] es[i].0@[0] < hi,
        forall|b: u8|
            lo <= b < hi && #[trigger] occ(m, b) ==> exists|i: int|
                0 <= i < es.len() && (#[trigger] es[i].0@) == seq![b],
    ensures
        es.len() == asc_keys(m, lo, hi).len(),
        forall|i: int| 0 <= i < es.len() ==> #[trigger] es[i].0@ == seq![asc_keys(m, lo, hi)[i]],
{
    let bs = es.map_values(|e: (Vec<u8>, Vec<u8>)| e.0@[0]);
    assert forall|i: int| 0 <= i < es.len() implies #[trigger] es[i].0@ == seq![bs[i]] && lo
        <= bs[i] < hi by {
        lemma_occ_key(m, es[i].0@);
        assert(bs[i] == es[i].0@[0]);
    }
    assert forall|i: int, j: int| 0 <= i < j < bs.len() implies bs[i] < bs[j] by {
        assert(lex_lt(es[i].0@, es[j].0@));
        lemma_lex_single(bs[i], bs[j]);
    }
    assert forall|b: u8| lo <= b < hi implies (#[trigger] occ(m, b) <==> bs.contains(b)) by {
        if occ(m, b) {
            let i = choose|i: int| 0 <= i < es.len() && (#[trigger] es[i].0@) == seq![b];
            assert(seq![b][0] == b);
            assert(bs[i] == b);
            assert(bs.contains(b));
        }
        if bs.contains(b) {
            let i = choose|i: int| 0 <= i < bs.len() && bs[i] == b;
            assert(m.dom().contains(es[i].0@));
            assert(es[i].0@ == seq![b]);
            assert(occ(m, b));
        }
    }
    lemma_sorted_complete(m, bs, lo, hi);
}

/// Encode one record; kept separate so every writer stores the same shape.
fn encode_record(value: i32) -> (r: Vec<u8>)
    ensures
        r@ == enc_item(value),
        r@.len() == 4,
{
    crate::codec::encode_item(&Item { value })
}

/// Widen each listed entry's single-byte key to a `u32`.
fn entry_keys_u32(entries: &Vec<(Vec<u8>, Vec<u8>)>) -> (r: Vec<u32>)
    requires
        forall|i: int| 0 <= i < entries@.len() ==> (#[trigger] entries@[i].0@).len() == 1,
    ensures
        r@.len() == entries@.len(),
        forall|i: int| 0 <= i < r@.len() ==> #[trigger] r@[i] == entries@[i].0@[0] as u32,
{
    let mut r: Vec<u32> = Vec::new();
    let mut i: usize = 0;
    while i < entries.len()
        invariant
            0 <= i <= entries@.len(),
            r@.len() == i,
            forall|j: int| 0 <= j < entries@.len() ==> (#[trigger] entries@[j].0@).len() == 1,
            forall|j: int| 0 <= j < i ==> #[trigger] r@[j] == entries@[j].0@[0] as u32,
        decreases entries@.len() - i,
    {
        let b = entries[i].0[0];
        r.push(b as u32);
        i += 1;
    }
    r
}

/// Count the entries: one full unbounded ascending traversal.
pub fn stack_count(store: &cosmwasm_std::MemoryStorage) -> (r: CountResponse)
    requires
        wf(store_view(*store)),
    ensures
        r.count == count_all(store_view(*store)),
{
    let ghost m = store_view(*store);
    let entries = range_ascending(store, None, None);
    proof {
        assert forall|b: u8| 0 <= b < 256 && #[trigger] occ(m, b) implies exists|i: int|
            0 <= i < entries@.len() && (#[trigger] entries@[i].0@) == seq![b] by {
            assert(key_in_range(seq![b], Option::None, Option::None));
        }
        lemma_entries_asc(m, entries@, 0, 256);
        lemma_asc_len(m, 0, 256);
    }
    CountResponse { count: entries.len() as u32 }
}

/// Sum the entries: decode each stored record along a full ascending
/// traversal and fold the values with wrapping 32-bit signed addition. A
/// stored value of the wrong shape surfaces as a serialization error.
pub fn stack_sum(store: &cosmwasm_std::MemoryStorage) -> (r: Result<SumResponse, StackError>)
    requires
        wf(store_view(*store)),
    ensures
        all_decodable(store_view(*store)) ==> r == Ok::<SumResponse, StackError>(
            SumResponse { sum: sum_all(store_view(*store)) },
        ),
        !all_decodable(store_view(*store)) ==> r == Err::<SumResponse, StackError>(
            StackError::Serialization,
        ),
{
    let ghost m = store_view(*store);
    let entries = range_ascending(store, None, None);
    proof {
        assert forall|b: u8| 0 <= b < 256 && #[trigger] occ(m, b) implies exists|i: int|
            0 <= i < entries@.len() && (#[trigger] entries@[i].0@) == seq![b] by {
            assert(key_in_range(seq![b], Option::None, Option::None));
        }
        lemma_entries_asc(m, entries@, 0, 256);
    }
    let ghost bs = asc_keys(m, 0, 256);
    let mut sum: i32 = 0;
    let mut i: usize = 0;
    while i < entries.len()
        invariant
            wf(m),
            m == store_view(*store),
            0 <= i <= entries@.len(),
            entries@.len() == bs.len(),
            bs == asc_keys(m, 0, 256),
            forall|j: int| 0 <= j < entries@.len() ==> #[trigger] entries@[j].0@ == seq![bs[j]],
            forall|j: int|
                0 <= j < entries@.len() ==> m.dom().contains(#[trigger] entries@[j].0@)
                    && m[entries@[j].0@] == entries@[j].1@,
            sum == sum_over(m, bs.take(i as int)),
            forall|j: int| 0 <= j < i ==> decodes(m[#[trigger] entries@[j].0@]),
        decreases entries@.len() - i,
    {
        let item = match crate::codec::decode_item(&entries[i].1) {
            Ok(item) => item,
            Err(e) => {
                proof {
                    assert(entries@[i as int].0@ == seq![bs[i as int]]);
                    assert(m.dom().contains(entries@[i as int].0@));
                    assert(m[entries@[i as int].0@] == entries@[i as int].1@);
                    assert(occ(m, bs[i as int]));
                    assert(!decodes(m[seq![bs[i as int]]]));
                    assert(!all_decodable(m));
                }
                return Err(e);
            },
        };
        sum = sum.wrapping_add(item.value);
        proof {
            assert(bs.take(i as int + 1).drop_last() =~= bs.take(i as int));
            assert(bs.take(i as int + 1).last() == bs[i as int]);
            assert(entries@[i as int].0@ == seq![bs[i as int]]);
            assert(m.dom().contains(entries@[i as int].0@));
            assert(m[entries@[i as int].0@] == entries@[i as int].1@);
            assert(item.value == item_val(m, bs[i as int]));
        }
        i += 1;
    }
    proof {
        assert(bs.take(entries@.len() as int) =~= bs);
        assert forall|b: u8| #[trigger] occ(m, b) implies decodes(m[seq![b]]) by {
            let j = choose|j: int| 0 <= j < entries@.len() && (#[trigger] entries@[j].0@) == seq![b];
            assert(decodes(m[entries@[j].0@]));
        }
        assert(all_decodable(m));
    }
    Ok(SumResponse { sum })
}

/// The lower probe bound: the ASCII bytes of "large".
pub open spec fn probe_lo() -> Seq<u8> {
    seq![0x6cu8, 0x61u8, 0x72u8, 0x67u8, 0x65u8]
}

/// The upper probe bound: the ASCII bytes of "larger".
pub open spec fn probe_hi() -> Seq<u8> {
    seq![0x6cu8, 0x61u8, 0x72u8, 0x67u8, 0x65u8, 0x72u8]
}

fn probe_lo_bytes() -> (r: Vec<u8>)
    ensures
        r@ == probe_lo(),
{
    let mut v: Vec<u8> = Vec::new();
    v.push(0x6c);
    v.push(0x61);
    v.push(0x72);
    v.push(0x67);
    v.push(0x65);
    proof {
        assert(v@ =~= probe_lo());
    }
    v
}

fn probe_hi_bytes() -> (r: Vec<u8>)
    ensures
        r@ == probe_hi(),
{
    let mut v = probe_lo_bytes();
    v.push(0x72);
    proof {
        assert(v@ =~= probe_hi());
    }
    v
}

/// No single-byte key lies between the probe bounds: every byte below 0x6c
/// sorts before "large", the byte 0x6c is a proper prefix of it, and every
/// byte above sorts after "larger".
proof fn lemma_probe_range_vacant(k: Seq<u8>)
    requires
        k.len() == 1,
    ensures
        !(lex_le(probe_lo(), k) && lex_lt(k, probe_hi())),
{
    let lo = probe_lo();
    let hi = probe_hi();
    assert(lo[0] == 0x6c && hi[0] == 0x6c);
    if lex_le(lo, k) && lex_lt(k, hi) {
        assert(k != lo);
        assert(lex_lt(lo, k));
        if k[0] > 0x6c {
            assert(!lex_lt(k, hi));
        } else if k[0] == 0x6c {
            assert(k.skip(1).len() == 0);
            assert(!lex_lt(lo.skip(1), k.skip(1)));
            assert(!lex_lt(lo, k));
        } else {
            assert(!lex_lt(lo, k));
        }
        assert(false);
    }
}

/// List the raw keys three ways: a both-bounded probe range that is always
/// empty, the keys below 0x20, and the keys from 0x20 up, each ascending.
pub fn stack_list(store: &cosmwasm_std::MemoryStorage) -> (r: ListResponse)
    requires
        wf(store_view(*store)),
    ensures
        r.empty@ == Seq::<u32>::empty(),
        r.early@ == asc_keys(store_view(*store), 0, 0x20).map_values(|b: u8| b as u32),
        r.late@ == asc_keys(store_view(*store), 0x20, 256).map_values(|b: u8| b as u32),
{
    let ghost m = store_view(*store);
    let lo_bound = probe_lo_bytes();
    let hi_bound = probe_hi_bytes();
    let split = single_byte(0x20);

    let probe_entries = range_ascending(store, Some(&lo_bound), Some(&hi_bound));
    proof {
        assert(probe_entries@.len() == 0) by {
            if probe_entries@.len() > 0 {
                let key = probe_entries@[0].0@;
                lemma_occ_key(m, key);
                lemma_probe_range_vacant(key);
            }
        }
    }

    let early_entries = range_ascending(store, None, Some(&split));
    proof {
        assert forall|i: int|
            0 <= i < early_entries@.len() implies 0 <= (#[trigger] early_entries@[i].0@)[0]
            < 0x20 by {
            lemma_occ_key(m, early_entries@[i].0@);
            let b = early_entries@[i].0@[0];
            assert(lex_lt(seq![b], seq![0x20u8]));
            lemma_lex_single(b, 0x20);
        }
        assert forall|b: u8| 0 <= b < 0x20 && #[trigger] occ(m, b) implies exists|i: int|
            0 <= i < early_entries@.len() && (#[trigger] early_entries@[i].0@) == seq![b] by {
            lemma_lex_single(b, 0x20);
            assert(key_in_range(seq![b], bound_view(Option::None), Option::Some(seq![0x20u8])));
        }
        lemma_entries_asc(m, early_entries@, 0, 0x20);
    }

    let late_entries = range_ascending(store, Some(&split), None);
    proof {
        assert forall|i: int|
            0 <= i < late_entries@.len() implies 0x20 <= (#[trigger] late_entries@[i].0@)[0]
            < 256 by {
            lemma_occ_key(m, late_entries@[i].0@);
            let b = late_entries@[i].0@[0];
            assert(lex_le(seq![0x20u8], seq![b]));
            lemma_lex_single(0x20, b);
        }
        assert forall|b: u8| 0x20 <= b < 256 && #[trigger] occ(m, b) implies exists|i: int|
            0 <= i < late_entries@.len() && (#[trigger] late_entries@[i].0@) == seq![b] by {
            lemma_lex_single(0x20, b);
            assert(key_in_range(seq![b], Option::Some(seq![0x20u8]), bound_view(Option::None)));
        }
        lemma_entries_asc(m, late_entries@, 0x20, 256);
    }

    let empty = entry_keys_u32(&probe_entries);
    let early = entry_keys_u32(&early_entries);
    let late = entry_keys_u32(&late_entries);
    proof {
        assert(empty@ =~= Seq::<u32>::empty());
        assert(early@ =~= asc_keys(m, 0, 0x20).map_values(|b: u8| b as u32)) by {
            assert forall|i: int| 0 <= i < early@.len() implies early@[i] == asc_keys(
                m,
                0,
                0x20,
            ).map_values(|b: u8| b as u32)[i] by {
                assert(early_entries@[i].0@ == seq![asc_keys(m, 0, 0x20)[i]]);
                assert(early_entries@[i].0@[0] == asc_keys(m, 0, 0x20)[i]);
            }
        }
        assert(late@ =~= asc_keys(m, 0x20, 256).map_values(|b: u8| b as u32)) by {
            assert forall|i: int| 0 <= i < late@.len() implies late@[i] == asc_keys(
                m,
                0x20,
                256,
            ).map_values(|b: u8| b as u32)[i] by {
                assert(late_entries@[i].0@ == seq![asc_keys(m, 0x20, 256)[i]]);
                assert(late_entries@[i].0@[0] == asc_keys(m, 0x20, 256)[i]);
            }
        }
    }
    ListResponse { empty, early, late }
}

fn single_byte(b: u8) -> (r: Vec<u8>)
    ensures
        r@ == seq![b],
{
    let mut v: Vec<u8> = Vec::new();
    v.push(b);
    proof {
        assert(v@ =~= seq![b]);
    }
    v
}

/// Dispatch a mutating command. A push answers with no payload; a pop
/// answers with the popped record's raw bytes, if the stack held one.
pub fn execute(store: &mut cosmwasm_std::MemoryStorage, msg: ExecuteMsg) -> (r: Result<
    Option<Vec<u8>>,
    StackError,
>)
    requires
        wf(store_view(*old(store))),
    ensures
        wf(store_view(*final(store))),
        match msg {
            ExecuteMsg::Push { value } => {
                &&& can_push(store_view(*old(store))) ==> r == Ok::<Option<Vec<u8>>, StackError>(
                    Option::None,
                ) && store_view(*final(store)) == spec_push(store_view(*old(store)), value)
                &&& !can_push(store_view(*old(store))) ==> r == Err::<Option<Vec<u8>>, StackError>(
                    StackError::KeyOverflow,
                ) && store_view(*final(store)) == store_view(*old(store))
            },
            ExecuteMsg::Pop {} => {
                &&& store_view(*final(store)) == spec_pop(store_view(*old(store)))
                &&& r matches Ok(p) && opt_bytes_view(p) == pop_payload(store_view(*old(store)))
            },
        },
{
    match msg {
        ExecuteMsg::Push { value } => {
            match push(store, value) {
                Ok(()) => Ok(None),
                Err(e) => Err(e),
            }
        },
        ExecuteMsg::Pop {} => {
            let payload = pop(store);
            Ok(payload)
        },
    }
}

/// Dispatch a read-only query; the answer carries the same tag.
pub fn query(store: &cosmwasm_std::MemoryStorage, msg: QueryMsg) -> (r: Result<
    QueryAnswer,
    StackError,
>)
    requires
        wf(store_view(*store)),
    ensures
        match msg {
            QueryMsg::Count {} => (r matches Ok(QueryAnswer::Count(c)) && c.count == count_all(
                store_view(*store),
            )),
            QueryMsg::Sum {} => {
                &&& all_decodable(store_view(*store)) ==> (r matches Ok(QueryAnswer::Sum(s))
                    && s.sum == sum_all(store_view(*store)))
                &&& !all_decodable(store_view(*store)) ==> r == Err::<QueryAnswer, StackError>(
                    StackError::Serialization,
                )
            },
            QueryMsg::List {} => (r matches Ok(QueryAnswer::List(l)) && l.empty@ == Seq::<
                u32,
            >::empty() && l.early@ == asc_keys(store_view(*store), 0, 0x20).map_values(
                |b: u8| b as u32,
            ) && l.late@ == asc_keys(store_view(*store), 0x20, 256).map_values(|b: u8| b as u32)),
        },
{
    match msg {
        QueryMsg::Count {} => Ok(QueryAnswer::Count(stack_count(store))),
        QueryMsg::Sum {} => {
            match stack_sum(store) {
                Ok(s) => Ok(QueryAnswer::Sum(s)),
                Err(e) => Err(e),
            }
        },
        QueryMsg::List {} => Ok(QueryAnswer::List(stack_list(store))),
    }
}

} // verus!
