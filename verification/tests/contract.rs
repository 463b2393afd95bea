//! Runs the storage contract against the in-memory reference engine.
use hadar::storage_api::conform;
use hadar::storage_api::MemEngine;

#[test]
fn get_missing_returns_none() {
    assert!(conform::get_missing_returns_none(&mut MemEngine::new()).unwrap());
}

#[test]
fn insert_then_get_round_trips() {
    assert!(conform::insert_then_get_round_trips(&mut MemEngine::new()).unwrap());
}

#[test]
fn insert_overwrites_existing_value() {
    assert!(conform::insert_overwrites_existing_value(&mut MemEngine::new()).unwrap());
}

#[test]
fn remove_returns_previous_value() {
    assert!(conform::remove_returns_previous_value(&mut MemEngine::new()).unwrap());
}

#[test]
fn remove_missing_returns_none() {
    assert!(conform::remove_missing_returns_none(&mut MemEngine::new()).unwrap());
}

#[test]
fn write_txn_reads_its_own_writes() {
    assert!(conform::write_txn_reads_its_own_writes(&mut MemEngine::new()).unwrap());
}

#[test]
fn writes_are_invisible_before_commit() {
    assert!(conform::writes_are_invisible_before_commit(&mut MemEngine::new()).unwrap());
}

#[test]
fn snapshot_is_stable_across_a_commit() {
    assert!(conform::snapshot_is_stable_across_a_commit(&mut MemEngine::new()).unwrap());
}

#[test]
fn read_opened_after_commit_observes_it() {
    assert!(conform::read_opened_after_commit_observes_it(&mut MemEngine::new()).unwrap());
}

#[test]
fn abort_discards_writes() {
    assert!(conform::abort_discards_writes(&mut MemEngine::new()).unwrap());
}

#[test]
fn drop_discards_writes() {
    assert!(conform::drop_discards_writes(&mut MemEngine::new()).unwrap());
}

#[test]
fn range_is_ascending() {
    assert!(conform::range_is_ascending(&mut MemEngine::new()).unwrap());
}

#[test]
fn range_orders_keys_as_unsigned_bytes() {
    assert!(conform::range_orders_keys_as_unsigned_bytes(&mut MemEngine::new()).unwrap());
}

#[test]
fn range_end_bound_is_exclusive() {
    assert!(conform::range_end_bound_is_exclusive(&mut MemEngine::new()).unwrap());
}

#[test]
fn range_unbounded_covers_keyspace() {
    assert!(conform::range_unbounded_covers_keyspace(&mut MemEngine::new()).unwrap());
}

#[test]
fn range_limit_takes_from_the_start() {
    assert!(conform::range_limit_takes_from_the_start(&mut MemEngine::new()).unwrap());
}
