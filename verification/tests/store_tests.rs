//! End-to-end scenarios for the block store: ingest, reachability,
//! aliases, transient pins, garbage collection, the orphan sweep, crash
//! recovery and the legacy migration.

use std::time::Duration;

use block_store::gc::NoopCacheTracker;
use block_store::migrate::LegacyRow;
use block_store::migrate::migrate_v0_v1;
use block_store::rows::BlockRow;
use block_store::rows::CidRow;
use block_store::rows::PinRow;
use block_store::rows::SizeTargets;
use block_store::rows::StoreError;
use block_store::rows::StoreStats;
use block_store::rows::TempPin;
use block_store::store::Store;
use block_store::timing::log_execution_time;

fn h(name: &str) -> Vec<u8> {
    name.as_bytes().to_vec()
}

fn sorted(mut v: Vec<Vec<u8>>) -> Vec<Vec<u8>> {
    v.sort();
    v
}

fn chain_store() -> Store {
    // put(A, "a", [B]), put(B, "b", [C]), put(C, "c", []), alias("root", A)
    let mut s = Store::new();
    s.put_block(&h("A"), &h("a"), &vec![h("B")]);
    s.put_block(&h("B"), &h("b"), &vec![h("C")]);
    s.put_block(&h("C"), &h("c"), &vec![]);
    s.alias(&h("root"), &h("A"));
    s
}

fn no_targets() -> SizeTargets {
    SizeTargets { max_count: 0, max_size: 0 }
}

fn run_gc(s: &mut Store) -> bool {
    let mut tracker = NoopCacheTracker {};
    s.incremental_gc(10, &Duration::from_secs(1), no_targets(), &mut tracker)
}

#[test]
fn linear_chain() {
    let s = chain_store();
    assert_eq!(
        sorted(s.get_descendants(&h("A"))),
        sorted(vec![h("A"), h("B"), h("C")])
    );
    assert_eq!(s.get_descendants(&h("B")).len(), 2);
    let mut s = s;
    assert_eq!(s.get_missing_blocks(&h("A")), Vec::<Vec<u8>>::new());
    let back = s.reverse_alias(&h("C"));
    assert!(back.contains(&h("root")));
    assert_eq!(s.get_store_stats(), StoreStats { count: 3, size: 3 });
    assert_eq!(s.compute_store_stats(), StoreStats { count: 3, size: 3 });
}

#[test]
fn incomplete_dag() {
    let mut s = Store::new();
    s.put_block(&h("A"), &h("a"), &vec![h("B")]);
    assert_eq!(sorted(s.get_descendants(&h("A"))), sorted(vec![h("A"), h("B")]));
    assert_eq!(s.get_missing_blocks(&h("A")), vec![h("B")]);
    assert!(!s.has_block(&h("B")));
    assert!(s.has_cid(&h("B")));
    assert_eq!(s.get_store_stats(), StoreStats { count: 1, size: 1 });
}

#[test]
fn content_addressing_roundtrip() {
    let mut s = chain_store();
    let got = s.get_block(&h("B")).expect("block stored");
    assert_eq!(got.1, h("b"));
    // intervening non-gc operations change nothing about the payload
    s.alias(&h("other"), &h("C"));
    s.unalias(&h("other"));
    s.get_missing_blocks(&h("D"));
    let again = s.get_block(&h("B")).expect("still stored");
    assert_eq!(again, got);
}

#[test]
fn put_idempotent() {
    let mut s = chain_store();
    let before_stats = s.get_store_stats();
    let before_desc = sorted(s.get_descendants(&h("A")));
    let id1 = s.put_block(&h("A"), &h("a"), &vec![h("B")]);
    // repeat with inconsistent links: links are not rewritten
    let id2 = s.put_block(&h("A"), &h("a"), &vec![h("Z")]);
    assert_eq!(id1, id2);
    assert_eq!(s.get_store_stats(), before_stats);
    assert_eq!(sorted(s.get_descendants(&h("A"))), before_desc);
    assert!(!s.has_cid(&h("Z")));
}

#[test]
fn stats_coherent_after_operations() {
    let mut s = chain_store();
    s.put_block(&h("D"), &h("dd"), &vec![h("A"), h("E")]);
    s.unalias(&h("root"));
    s.alias(&h("r2"), &h("D"));
    assert_eq!(s.get_store_stats(), s.compute_store_stats());
    run_gc(&mut s);
    assert_eq!(s.get_store_stats(), s.compute_store_stats());
}

#[test]
fn gc_removes_unpinned() {
    let mut s = chain_store();
    s.unalias(&h("root"));
    let done = run_gc(&mut s);
    assert!(done);
    assert!(!s.has_cid(&h("A")));
    assert!(!s.has_cid(&h("B")));
    assert!(!s.has_cid(&h("C")));
    assert_eq!(s.get_store_stats(), StoreStats { count: 0, size: 0 });
}

#[test]
fn gc_preserves_pinned_subgraph() {
    let mut s = chain_store();
    run_gc(&mut s);
    assert!(s.has_block(&h("A")));
    assert!(s.has_block(&h("B")));
    assert!(s.has_block(&h("C")));
}

#[test]
fn gc_no_work_when_targets_met() {
    let mut s = chain_store();
    s.unalias(&h("root"));
    let mut tracker = NoopCacheTracker {};
    let targets = SizeTargets { max_count: 100, max_size: 1000 };
    let done = s.incremental_gc(10, &Duration::from_secs(1), targets, &mut tracker);
    assert!(done);
    assert!(s.has_block(&h("A")));
}

#[test]
fn transient_pin_survives_until_release() {
    let mut s = Store::new();
    let mut pin = TempPin::new();
    s.put_block_pinned(&h("X"), &h("x"), &vec![], &mut pin).expect("pin assigned");
    assert!(pin.id >= 2);
    run_gc(&mut s);
    assert!(s.has_block(&h("X")));
    s.delete_temp_pin(pin.id);
    run_gc(&mut s);
    assert!(!s.has_cid(&h("X")));
}

#[test]
fn repinning_existing_block_wins() {
    let mut s = chain_store();
    let mut pin = TempPin::new();
    s.put_block_pinned(&h("A"), &h("a"), &vec![h("B")], &mut pin).expect("pinned");
    s.unalias(&h("root"));
    run_gc(&mut s);
    assert!(s.has_block(&h("A")));
    assert!(s.has_block(&h("C")));
}

#[test]
fn crash_recovery_purges_transient_pins() {
    let mut s = Store::new();
    let mut pin = TempPin::new();
    s.put_block_pinned(&h("X"), &h("x"), &vec![], &mut pin).expect("pinned");
    s.alias(&h("keep"), &h("K"));
    // close without releasing, reopen
    s.reopen();
    assert_eq!(s.pins.len(), 0);
    run_gc(&mut s);
    assert!(!s.has_cid(&h("X")));
    // durable aliases survive
    assert!(s.has_cid(&h("K")));
}

#[test]
fn orphan_sweep() {
    // the harness deletes a row from cids, leaving its block behind
    let mut s = Store::new();
    s.put_block(&h("A"), &h("aaa"), &vec![]);
    s.cids = Vec::new();
    s.stats = StoreStats { count: 0, size: 0 };
    assert_eq!(s.compute_store_stats(), StoreStats { count: 0, size: 0 });
    let done = s.incremental_delete_orphaned(10, &Duration::from_secs(1));
    assert!(done);
    assert_eq!(s.blocks.len(), 0);
    assert_eq!(s.get_store_stats(), StoreStats { count: 0, size: 0 });
}

#[test]
fn orphan_sweep_leaves_live_blocks() {
    let mut s = chain_store();
    let done = s.incremental_delete_orphaned(10, &Duration::from_secs(1));
    assert!(done);
    assert!(s.has_block(&h("A")));
    assert_eq!(s.get_store_stats(), StoreStats { count: 3, size: 3 });
}

#[test]
fn pin_id_allocation_starts_at_two_and_grows() {
    let mut s = Store::new();
    let mut p1 = TempPin::new();
    s.put_block_pinned(&h("X"), &h("x"), &vec![], &mut p1).expect("pinned");
    assert_eq!(p1.id, 2);
    let mut p2 = TempPin::new();
    s.put_block_pinned(&h("Y"), &h("y"), &vec![], &mut p2).expect("pinned");
    assert_eq!(p2.id, 3);
}

#[test]
fn pin_id_exhaustion_is_reported() {
    let mut s = Store::new();
    s.put_block(&h("X"), &h("x"), &vec![]);
    // a pin table already at the end of the id space
    let id = s.cids[0].id;
    s.pins = vec![PinRow { pin: u64::MAX, id }];
    let mut pin = TempPin::new();
    let r = s.put_block_pinned(&h("X"), &h("x"), &vec![], &mut pin);
    assert_eq!(r, Err(StoreError::PinIdsExhausted));
    assert_eq!(pin.id, 0);
}

#[test]
fn migration_rejects_undecodable_rows() {
    let rows = vec![LegacyRow { hash: h("not a cid"), payload: h("junk") }];
    let r = migrate_v0_v1(&rows);
    assert!(matches!(r, Err(StoreError::UndecodableBlock)));
}

#[test]
fn migration_recovers_links_from_payload() {
    let child = libipld::Block::<libipld::DefaultParams>::encode(
        libipld::cbor::DagCborCodec,
        libipld::multihash::Code::Sha2_256,
        &libipld::Ipld::Null,
    )
    .expect("encode child");
    let parent = libipld::Block::<libipld::DefaultParams>::encode(
        libipld::cbor::DagCborCodec,
        libipld::multihash::Code::Sha2_256,
        &libipld::Ipld::List(vec![libipld::Ipld::Link(*child.cid())]),
    )
    .expect("encode parent");
    let rows = vec![LegacyRow {
        hash: parent.cid().to_bytes(),
        payload: parent.data().to_vec(),
    }];
    let mut s = migrate_v0_v1(&rows).expect("migration succeeds");
    // the decoded link is interned even though its block is absent
    assert!(s.has_block(&parent.cid().to_bytes()));
    // and nothing else is
    assert!(!s.has_cid(&h("unrelated")));
    assert_eq!(s.get_block(&parent.cid().to_bytes()).unwrap().1, parent.data().to_vec());
    assert!(s.has_cid(&child.cid().to_bytes()));
    assert!(!s.has_block(&child.cid().to_bytes()));
    let missing = s.get_missing_blocks(&parent.cid().to_bytes());
    assert_eq!(missing, vec![child.cid().to_bytes()]);
    // reopening a migrated store changes nothing observable
    let stats = s.get_store_stats();
    s.reopen();
    assert_eq!(s.get_store_stats(), stats);
    assert!(s.has_block(&parent.cid().to_bytes()));
}

#[test]
fn reverse_alias_empty_for_unaliased() {
    let s = chain_store();
    let back = s.reverse_alias(&h("A"));
    assert_eq!(back, vec![h("root")]);
    let mut s2 = s;
    s2.unalias(&h("root"));
    assert_eq!(s2.reverse_alias(&h("A")), Vec::<Vec<u8>>::new());
}

#[test]
fn descendants_of_unknown_hash_is_empty() {
    let s = chain_store();
    assert_eq!(s.get_descendants(&h("nope")), Vec::<Vec<u8>>::new());
}

#[test]
fn eviction_order_follows_tracker() {
    // two unreachable blocks, room for exactly one: the front of the
    // sorted candidate list goes first
    let mut s = Store::new();
    s.put_block(&h("A"), &h("a"), &vec![]);
    s.put_block(&h("B"), &h("b"), &vec![]);
    let mut tracker = NoopCacheTracker {};
    let targets = SizeTargets { max_count: 1, max_size: 100 };
    let done = s.incremental_gc(1, &Duration::from_secs(1), targets, &mut tracker);
    assert!(done);
    let stats = s.get_store_stats();
    assert_eq!(stats.count, 1);
    assert!(s.has_cid(&h("A")) != s.has_cid(&h("B")));
}

#[test]
fn timing_harness_returns_result() {
    let (r, _micros) = log_execution_time(|| Ok::<u64, StoreError>(17));
    assert_eq!(r, Ok(17));
    let (r2, _micros2) = log_execution_time(|| Err::<u64, StoreError>(StoreError::CapacityExceeded));
    assert_eq!(r2, Err(StoreError::CapacityExceeded));
}

#[test]
fn listers_cover_the_tables() {
    let mut s = Store::new();
    s.put_block(&h("A"), &h("a"), &vec![h("B")]);
    let ids = s.get_ids();
    assert_eq!(ids.len(), 1);
    assert_eq!(sorted(s.get_block_cids()), vec![h("A")]);
    assert_eq!(sorted(s.get_known_cids()), sorted(vec![h("A"), h("B")]));
}

#[test]
fn orphan_insertion_is_invisible_to_stats() {
    let mut s = Store::new();
    s.put_block(&h("A"), &h("a"), &vec![]);
    s.insert_orphan_block(&h("zzz"));
    assert_eq!(s.get_store_stats(), StoreStats { count: 1, size: 1 });
    assert_eq!(s.get_store_stats(), s.compute_store_stats());
    let done = s.incremental_delete_orphaned(10, &Duration::from_secs(1));
    assert!(done);
    assert!(s.has_block(&h("A")));
    assert_eq!(s.blocks.len(), 1);
}

#[test]
fn alias_repeat_and_replace() {
    let mut s = chain_store();
    let before = s.reverse_alias(&h("C"));
    s.alias(&h("root"), &h("A"));
    assert_eq!(s.reverse_alias(&h("C")), before);
    s.alias(&h("root"), &h("C"));
    assert_eq!(s.reverse_alias(&h("A")), Vec::<Vec<u8>>::new());
    assert_eq!(s.reverse_alias(&h("C")), vec![h("root")]);
}

#[test]
fn cid_row_fields_are_plain() {
    let row = CidRow { id: 1, hash: h("A") };
    assert_eq!(row.id, 1);
    let b = BlockRow { id: 1, payload: h("a") };
    assert_eq!(b.payload, h("a"));
}
