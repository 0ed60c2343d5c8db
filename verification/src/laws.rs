//! Store-wide laws, stated once and proved from the model: the stats
//! mirror agrees with the ground truth, the missing-block set is contained
//! in the descendant set, and block lookups depend only on the identifier
//! and payload tables.

use vstd::prelude::*;

use crate::store::Store;
use crate::store::live_count;
use crate::store::live_size;

verus! {

/// After any operation that keeps the store invariant, the constant-time
/// stats summary equals the aggregate recomputed from the ground truth.
pub proof fn lemma_stats_coherent(s: Store)
    requires
        s.wf(),
    ensures
        s.stats.count == live_count(s.id_set(), s.blocks@),
        s.stats.size == live_size(s.id_set(), s.blocks@),
{
}

/// The missing blocks of a root are among its descendants: exactly those
/// without a stored payload.
pub proof fn lemma_missing_subset_of_descendants(s: Store, root: u64)
    ensures
        s.missing_set(root).subset_of(s.descendant_set(root)),
        forall|x: u64|
            #[trigger] s.missing_set(root).contains(x) <==> s.descendant_set(root).contains(x)
                && !s.has_block_id(x),
{
    assert forall|x: u64| #[trigger] s.missing_set(root).contains(x) implies s.descendant_set(
        root,
    ).contains(x) by {
        assert(s.can_reach(root, x));
    }
}

/// A block lookup observes only the identifier and payload tables: any
/// operation that leaves both untouched (aliasing, pinning, queries)
/// leaves every lookup result unchanged. Together with ingest never
/// rewriting a stored payload, a stored block reads back unchanged across
/// all operations short of garbage collection.
pub proof fn lemma_lookup_depends_on_tables(a: Store, b: Store, h: Seq<u8>)
    requires
        a.cids@ == b.cids@,
        b.blocks@ == a.blocks@,
        forall|i: int, j: int| 0 <= i < j < a.cids@.len() ==> a.cids@[i].id != a.cids@[j].id,
        forall|i: int, j: int| 0 <= i < j < a.cids@.len() ==> a.cids@[i].hash@ != a.cids@[j].hash@,
        forall|i: int, j: int| 0 <= i < j < a.blocks@.len() ==> a.blocks@[i].id != a.blocks@[j].id,
    ensures
        a.lookup_block(h) == b.lookup_block(h),
{
    crate::store::lemma_same_cids_maps(a, b);
    crate::store::lemma_same_blocks(a, b);
    if a.has_hash(h) {
        assert(a.hash_to_id(h) == b.hash_to_id(h));
    }
}

} // verus!
