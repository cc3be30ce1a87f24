//! End-to-end tests of the stack over a real in-memory store.

use cosmwasm_std::MemoryStorage;
use cosmwasm_std::Storage;
use kvstack::codec::{decode_item, encode_item, Item, StackError};
use kvstack::contract::{
    execute, instantiate, pop, push, query, stack_count, stack_list, stack_sum, ExecuteMsg,
    QueryAnswer, QueryMsg,
};

#[test]
fn instantiate_succeeds() {
    assert_eq!(instantiate(), Ok(()));
}

#[test]
fn empty_store_queries() {
    let store = MemoryStorage::new();
    assert_eq!(stack_count(&store).count, 0);
    assert_eq!(stack_sum(&store).unwrap().sum, 0);
    let list = stack_list(&store);
    assert_eq!(list.empty, Vec::<u32>::new());
    assert_eq!(list.early, Vec::<u32>::new());
    assert_eq!(list.late, Vec::<u32>::new());
}

#[test]
fn pop_on_empty_is_benign() {
    let mut store = MemoryStorage::new();
    assert_eq!(pop(&mut store), None);
    assert_eq!(stack_count(&store).count, 0);
}

#[test]
fn push_three_then_pop() {
    let mut store = MemoryStorage::new();
    push(&mut store, 5).unwrap();
    push(&mut store, 7).unwrap();
    push(&mut store, 3).unwrap();
    assert_eq!(stack_count(&store).count, 3);
    assert_eq!(stack_sum(&store).unwrap().sum, 15);

    let payload = pop(&mut store).expect("a pushed entry must pop");
    assert_eq!(payload, encode_item(&Item { value: 3 }));
    assert_eq!(decode_item(&payload), Ok(Item { value: 3 }));

    assert_eq!(stack_count(&store).count, 2);
    assert_eq!(stack_sum(&store).unwrap().sum, 12);
}

#[test]
fn lifo_order() {
    let mut store = MemoryStorage::new();
    let values = [10, -4, 0, 99, i32::MIN, i32::MAX];
    for v in values {
        push(&mut store, v).unwrap();
    }
    for v in values.iter().rev() {
        let payload = pop(&mut store).unwrap();
        assert_eq!(decode_item(&payload), Ok(Item { value: *v }));
    }
    assert_eq!(pop(&mut store), None);
    assert_eq!(stack_count(&store).count, 0);
}

#[test]
fn sum_wraps_at_32_bits() {
    let mut store = MemoryStorage::new();
    push(&mut store, i32::MAX).unwrap();
    push(&mut store, 1).unwrap();
    assert_eq!(stack_sum(&store).unwrap().sum, i32::MIN);
}

#[test]
fn list_partitions_at_0x20() {
    let mut store = MemoryStorage::new();
    for v in 0..33 {
        push(&mut store, v).unwrap();
    }
    let list = stack_list(&store);
    assert_eq!(list.empty, Vec::<u32>::new());
    assert_eq!(list.early, (0u32..32).collect::<Vec<u32>>());
    assert_eq!(list.late, vec![32u32]);
}

#[test]
fn list_keeps_keys_ascending() {
    let mut store = MemoryStorage::new();
    for v in 0..40 {
        push(&mut store, v).unwrap();
    }
    for _ in 0..3 {
        pop(&mut store).unwrap();
    }
    let list = stack_list(&store);
    assert_eq!(list.early, (0u32..32).collect::<Vec<u32>>());
    assert_eq!(list.late, (32u32..37).collect::<Vec<u32>>());
}

#[test]
fn key_space_overflows_at_256_entries() {
    let mut store = MemoryStorage::new();
    for v in 0..256 {
        push(&mut store, v).unwrap();
    }
    assert_eq!(stack_count(&store).count, 256);
    assert_eq!(push(&mut store, 1), Err(StackError::KeyOverflow));
    assert_eq!(stack_count(&store).count, 256);
    let payload = pop(&mut store).unwrap();
    assert_eq!(decode_item(&payload), Ok(Item { value: 255 }));
}

#[test]
fn sum_reports_undecodable_bytes() {
    let mut store = MemoryStorage::new();
    push(&mut store, 8).unwrap();
    store.set(&[1u8], &[1u8, 2u8, 3u8]);
    assert_eq!(stack_sum(&store), Err(StackError::Serialization));
}

#[test]
fn execute_dispatches_push_and_pop() {
    let mut store = MemoryStorage::new();
    assert_eq!(execute(&mut store, ExecuteMsg::Push { value: 41 }), Ok(None));
    assert_eq!(execute(&mut store, ExecuteMsg::Push { value: 1 }), Ok(None));
    let popped = execute(&mut store, ExecuteMsg::Pop {}).unwrap();
    assert_eq!(popped, Some(encode_item(&Item { value: 1 })));
    assert_eq!(stack_count(&store).count, 1);
    let popped = execute(&mut store, ExecuteMsg::Pop {}).unwrap();
    assert_eq!(popped, Some(encode_item(&Item { value: 41 })));
    assert_eq!(execute(&mut store, ExecuteMsg::Pop {}), Ok(None));
}

#[test]
fn query_dispatches_all_variants() {
    let mut store = MemoryStorage::new();
    push(&mut store, 2).unwrap();
    push(&mut store, 40).unwrap();
    match query(&store, QueryMsg::Count {}).unwrap() {
        QueryAnswer::Count(c) => assert_eq!(c.count, 2),
        other => panic!("wrong answer variant: {:?}", other),
    }
    match query(&store, QueryMsg::Sum {}).unwrap() {
        QueryAnswer::Sum(s) => assert_eq!(s.sum, 42),
        other => panic!("wrong answer variant: {:?}", other),
    }
    match query(&store, QueryMsg::List {}).unwrap() {
        QueryAnswer::List(l) => {
            assert_eq!(l.empty, Vec::<u32>::new());
            assert_eq!(l.early, vec![0u32, 1u32]);
            assert_eq!(l.late, Vec::<u32>::new());
        }
        other => panic!("wrong answer variant: {:?}", other),
    }
}
