//! The store model: the relational tables as row vectors, the
//! well-formedness invariant coupling them, and the basic operations
//! (interning, ingest, lookups, aliases, transient pins, stats).

use vstd::prelude::*;
use vstd::seq_lib::group_seq_properties;

use crate::rows::AliasRow;
use crate::rows::BlockRow;
use crate::rows::CidRow;
use crate::rows::PinRow;
use crate::rows::RefRow;
use crate::rows::StoreError;
use crate::rows::StoreStats;
use crate::rows::TempPin;

verus! {

/// Number of block rows of `bs` whose identifier is in `ids`: the ground
/// truth behind `stats.count`.
pub open spec fn live_count(ids: Set<u64>, bs: Seq<BlockRow>) -> nat
    decreases bs.len(),
{
    if bs.len() == 0 {
        0
    } else {
        live_count(ids, bs.drop_last()) + if ids.contains(bs.last().id) {
            1nat
        } else {
            0nat
        }
    }
}

/// Total payload bytes of the block rows of `bs` whose identifier is in
/// `ids`: the ground truth behind `stats.size`.
pub open spec fn live_size(ids: Set<u64>, bs: Seq<BlockRow>) -> nat
    decreases bs.len(),
{
    if bs.len() == 0 {
        0
    } else {
        live_size(ids, bs.drop_last()) + if ids.contains(bs.last().id) {
            bs.last().payload@.len()
        } else {
            0nat
        }
    }
}

/// The content-addressed block store: all tables, the stats summary, and
/// the next identifier to assign. Identifiers are never reused within a
/// session.
pub struct Store {
    pub cids: Vec<CidRow>,
    pub refs: Vec<RefRow>,
    pub blocks: Vec<BlockRow>,
    pub aliases: Vec<AliasRow>,
    pub pins: Vec<PinRow>,
    pub stats: StoreStats,
    pub next_id: u64,
}

impl Store {
    /// The identifier `id` is interned.
    pub open spec fn has_id(self, id: u64) -> bool {
        exists|i: int| 0 <= i < self.cids@.len() && self.cids@[i].id == id
    }

    /// The hash `h` is interned.
    pub open spec fn has_hash(self, h: Seq<u8>) -> bool {
        exists|i: int| 0 <= i < self.cids@.len() && self.cids@[i].hash@ == h
    }

    /// The identifier interned for hash `h`.
    pub open spec fn hash_to_id(self, h: Seq<u8>) -> u64 {
        self.cids@[choose|i: int| 0 <= i < self.cids@.len() && self.cids@[i].hash@ == h].id
    }

    /// The hash interned as identifier `id`.
    pub open spec fn id_to_hash(self, id: u64) -> Seq<u8> {
        self.cids@[choose|i: int| 0 <= i < self.cids@.len() && self.cids@[i].id == id].hash@
    }

    /// The set of interned identifiers.
    pub open spec fn id_set(self) -> Set<u64> {
        Set::new(|x: u64| self.has_id(x))
    }

    /// There is a link edge from `p` to `c`.
    pub open spec fn has_edge(self, p: u64, c: u64) -> bool {
        exists|i: int|
            0 <= i < self.refs@.len() && self.refs@[i].parent == p && self.refs@[i].child == c
    }

    /// Identifier `id` has a stored payload.
    pub open spec fn has_block_id(self, id: u64) -> bool {
        exists|i: int| 0 <= i < self.blocks@.len() && self.blocks@[i].id == id
    }

    /// The payload stored for identifier `id`.
    pub open spec fn payload_of(self, id: u64) -> Seq<u8> {
        self.blocks@[choose|i: int| 0 <= i < self.blocks@.len() && self.blocks@[i].id == id].payload@
    }

    /// Hash `h` is interned and its identifier has a stored payload.
    pub open spec fn has_block_hash(self, h: Seq<u8>) -> bool {
        self.has_hash(h) && self.has_block_id(self.hash_to_id(h))
    }

    /// What a lookup of hash `h` observes: the interned identifier and the
    /// stored payload, if both exist.
    pub open spec fn lookup_block(self, h: Seq<u8>) -> Option<(u64, Seq<u8>)> {
        if self.has_block_hash(h) {
            Some((self.hash_to_id(h), self.payload_of(self.hash_to_id(h))))
        } else {
            None
        }
    }

    /// Name `name` is a durable alias for identifier `id`.
    pub open spec fn is_alias(self, name: Seq<u8>, id: u64) -> bool {
        exists|i: int|
            0 <= i < self.aliases@.len() && self.aliases@[i].name@ == name && self.aliases@[i].id
                == id
    }

    /// Some durable alias has name `name`.
    pub open spec fn has_alias(self, name: Seq<u8>) -> bool {
        exists|i: int| 0 <= i < self.aliases@.len() && self.aliases@[i].name@ == name
    }

    /// Identifier `id` is the target of some durable alias.
    pub open spec fn aliased(self, id: u64) -> bool {
        exists|i: int| 0 <= i < self.aliases@.len() && self.aliases@[i].id == id
    }

    /// The transient pin table holds the pair `(pin, id)`.
    pub open spec fn has_pin_row(self, pin: u64, id: u64) -> bool {
        exists|i: int| 0 <= i < self.pins@.len() && self.pins@[i] == (PinRow { pin, id })
    }

    /// Identifier `id` is held by some transient pin.
    pub open spec fn pinned(self, id: u64) -> bool {
        exists|i: int| 0 <= i < self.pins@.len() && self.pins@[i].id == id
    }

    /// Identifier `id` is a root for reachability: durably aliased or
    /// transiently pinned.
    pub open spec fn seed(self, id: u64) -> bool {
        self.aliased(id) || self.pinned(id)
    }

    /// Identifier rows are well formed: ids distinct and in range, hashes
    /// distinct.
    pub open spec fn cids_ok(self) -> bool {
        &&& forall|i: int, j: int|
            0 <= i < j < self.cids@.len() ==> self.cids@[i].id != self.cids@[j].id
        &&& forall|i: int, j: int|
            0 <= i < j < self.cids@.len() ==> self.cids@[i].hash@ != self.cids@[j].hash@
        &&& forall|i: int|
            0 <= i < self.cids@.len() ==> 1 <= #[trigger] self.cids@[i].id < self.next_id
    }

    /// Edge rows are well formed: both endpoints interned, no duplicate
    /// edges.
    pub open spec fn refs_ok(self) -> bool {
        &&& forall|i: int|
            0 <= i < self.refs@.len() ==> self.has_id(#[trigger] self.refs@[i].parent)
                && self.has_id(self.refs@[i].child)
        &&& forall|i: int, j: int| 0 <= i < j < self.refs@.len() ==> self.refs@[i] != self.refs@[j]
    }

    /// Block rows are well formed: ids distinct and in range. A block id
    /// need not be interned: such a row is an orphan awaiting the sweep.
    pub open spec fn blocks_ok(self) -> bool {
        &&& forall|i: int, j: int|
            0 <= i < j < self.blocks@.len() ==> self.blocks@[i].id != self.blocks@[j].id
        &&& forall|i: int|
            0 <= i < self.blocks@.len() ==> 1 <= #[trigger] self.blocks@[i].id < self.next_id
    }

    /// Alias rows are well formed: names distinct, targets interned.
    pub open spec fn aliases_ok(self) -> bool {
        &&& forall|i: int, j: int|
            0 <= i < j < self.aliases@.len() ==> self.aliases@[i].name@ != self.aliases@[j].name@
        &&& forall|i: int|
            0 <= i < self.aliases@.len() ==> self.has_id(#[trigger] self.aliases@[i].id)
    }

    /// Transient pin rows are well formed: pairs distinct, pin ids live
    /// (at least 2), targets interned.
    pub open spec fn pins_ok(self) -> bool {
        &&& forall|i: int, j: int| 0 <= i < j < self.pins@.len() ==> self.pins@[i] != self.pins@[j]
        &&& forall|i: int|
            0 <= i < self.pins@.len() ==> (#[trigger] self.pins@[i]).pin >= 2 && self.has_id(
                self.pins@[i].id,
            )
    }

    /// The stats summary equals the ground-truth aggregate over the interned
    /// identifiers that have a stored payload.
    pub open spec fn stats_ok(self) -> bool {
        &&& self.stats.count == live_count(self.id_set(), self.blocks@)
        &&& self.stats.size == live_size(self.id_set(), self.blocks@)
    }

    /// The store invariant, holding at every operation boundary.
    pub open spec fn wf(self) -> bool {
        &&& self.cids_ok()
        &&& self.refs_ok()
        &&& self.blocks_ok()
        &&& self.aliases_ok()
        &&& self.pins_ok()
        &&& self.stats_ok()
        &&& self.next_id >= 1
    }

    /// An identifier row determines `has_hash` and `hash_to_id`.
    pub proof fn lemma_row_id(self, i: int)
        requires
            forall|a: int, b: int|
                0 <= a < b < self.cids@.len() ==> self.cids@[a].hash@ != self.cids@[b].hash@,
            0 <= i < self.cids@.len(),
        ensures
            self.has_hash(self.cids@[i].hash@),
            self.hash_to_id(self.cids@[i].hash@) == self.cids@[i].id,
    {
        assert(self.has_hash(self.cids@[i].hash@));
        let j = choose|j: int|
            0 <= j < self.cids@.len() && self.cids@[j].hash@ == self.cids@[i].hash@;
        assert(j == i);
    }

    /// An identifier row determines `has_id` and `id_to_hash`.
    pub proof fn lemma_row_hash(self, i: int)
        requires
            forall|a: int, b: int|
                0 <= a < b < self.cids@.len() ==> self.cids@[a].id != self.cids@[b].id,
            0 <= i < self.cids@.len(),
        ensures
            self.has_id(self.cids@[i].id),
            self.id_to_hash(self.cids@[i].id) == self.cids@[i].hash@,
    {
        assert(self.has_id(self.cids@[i].id));
        let j = choose|j: int| 0 <= j < self.cids@.len() && self.cids@[j].id == self.cids@[i].id;
        assert(j == i);
    }

    /// A block row determines `has_block_id` and `payload_of`.
    pub proof fn lemma_block_row(self, i: int)
        requires
            forall|a: int, b: int|
                0 <= a < b < self.blocks@.len() ==> self.blocks@[a].id != self.blocks@[b].id,
            0 <= i < self.blocks@.len(),
        ensures
            self.has_block_id(self.blocks@[i].id),
            self.payload_of(self.blocks@[i].id) == self.blocks@[i].payload@,
    {
        assert(self.has_block_id(self.blocks@[i].id));
        let j = choose|j: int|
            0 <= j < self.blocks@.len() && self.blocks@[j].id == self.blocks@[i].id;
        assert(j == i);
    }
}

/// An identifier that appears on no block row does not affect the live
/// aggregates, whether it is added to or removed from the identifier set.
pub proof fn lemma_live_id_irrelevant(ids: Set<u64>, bs: Seq<BlockRow>, x: u64)
    requires
        forall|i: int| 0 <= i < bs.len() ==> bs[i].id != x,
    ensures
        live_count(ids.insert(x), bs) == live_count(ids, bs),
        live_size(ids.insert(x), bs) == live_size(ids, bs),
        live_count(ids.remove(x), bs) == live_count(ids, bs),
        live_size(ids.remove(x), bs) == live_size(ids, bs),
    decreases bs.len(),
{
    if bs.len() > 0 {
        lemma_live_id_irrelevant(ids, bs.drop_last(), x);
        assert(bs.last().id != x);
    }
}

/// Appending a block row adds its contribution to the live aggregates.
pub proof fn lemma_live_push(ids: Set<u64>, bs: Seq<BlockRow>, b: BlockRow)
    ensures
        live_count(ids, bs.push(b)) == live_count(ids, bs) + if ids.contains(b.id) {
            1nat
        } else {
            0nat
        },
        live_size(ids, bs.push(b)) == live_size(ids, bs) + if ids.contains(b.id) {
            b.payload@.len()
        } else {
            0nat
        },
{
    assert(bs.push(b).drop_last() =~= bs);
    assert(bs.push(b).last() == b);
}

/// Filtering keeps rows pairwise distinct under any key, and keeps only
/// rows of the original sequence that satisfy the predicate.
pub proof fn lemma_filter_distinct_by<A, B>(s: Seq<A>, pred: spec_fn(A) -> bool, key: spec_fn(
    A,
) -> B)
    requires
        forall|i: int, j: int| 0 <= i < j < s.len() ==> key(s[i]) != key(s[j]),
    ensures
        forall|i: int, j: int|
            0 <= i < j < s.filter(pred).len() ==> key(s.filter(pred)[i]) != key(s.filter(pred)[j]),
        s.filter(pred).len() <= s.len(),
        forall|i: int|
            0 <= i < s.filter(pred).len() ==> s.contains(#[trigger] s.filter(pred)[i]) && pred(
                s.filter(pred)[i],
            ),
    decreases s.len(),
{
    reveal(Seq::filter);
    if s.len() > 0 {
        let s0 = s.drop_last();
        lemma_filter_distinct_by(s0, pred, key);
        assert(s0.push(s.last()) =~= s);
        s0.lemma_filter_push(s.last(), pred);
        assert forall|i: int|
            0 <= i < s0.filter(pred).len() implies s.contains(#[trigger] s0.filter(pred)[i]) by {
            let j = choose|j: int| 0 <= j < s0.len() && s0[j] == s0.filter(pred)[i];
            assert(s[j] == s0.filter(pred)[i]);
        }
        if pred(s.last()) {
            assert(s.filter(pred) == s0.filter(pred).push(s.last()));
            assert forall|i: int, j: int|
                0 <= i < j < s.filter(pred).len() implies key(s.filter(pred)[i]) != key(
                s.filter(pred)[j],
            ) by {
                if j == s.filter(pred).len() - 1 {
                    let a = choose|a: int| 0 <= a < s0.len() && s0[a] == s0.filter(pred)[i];
                    assert(s[a] == s.filter(pred)[i]);
                    assert(key(s[a]) != key(s[s.len() - 1]));
                }
            }
        }
    }
}

/// Two stores with the same identifier table resolve hashes and
/// identifiers alike.
pub proof fn lemma_same_cids_maps(a: Store, b: Store)
    requires
        a.cids@ == b.cids@,
        forall|i: int, j: int| 0 <= i < j < a.cids@.len() ==> a.cids@[i].id != a.cids@[j].id,
        forall|i: int, j: int| 0 <= i < j < a.cids@.len() ==> a.cids@[i].hash@ != a.cids@[j].hash@,
    ensures
        forall|h: Seq<u8>| #[trigger] a.has_hash(h) == b.has_hash(h),
        forall|x: u64| #[trigger] a.has_id(x) == b.has_id(x),
        forall|h: Seq<u8>| a.has_hash(h) ==> #[trigger] a.hash_to_id(h) == b.hash_to_id(h),
        forall|x: u64| a.has_id(x) ==> #[trigger] a.id_to_hash(x) == b.id_to_hash(x),
{
    assert forall|h: Seq<u8>| #[trigger] a.has_hash(h) == b.has_hash(h) by {
        if a.has_hash(h) {
            let i = choose|i: int| 0 <= i < a.cids@.len() && a.cids@[i].hash@ == h;
            assert(b.cids@[i].hash@ == h);
        }
        if b.has_hash(h) {
            let i = choose|i: int| 0 <= i < b.cids@.len() && b.cids@[i].hash@ == h;
            assert(a.cids@[i].hash@ == h);
        }
    }
    assert forall|x: u64| #[trigger] a.has_id(x) == b.has_id(x) by {
        if a.has_id(x) {
            let i = choose|i: int| 0 <= i < a.cids@.len() && a.cids@[i].id == x;
            assert(b.cids@[i].id == x);
        }
        if b.has_id(x) {
            let i = choose|i: int| 0 <= i < b.cids@.len() && b.cids@[i].id == x;
            assert(a.cids@[i].id == x);
        }
    }
    assert forall|h: Seq<u8>| a.has_hash(h) implies #[trigger] a.hash_to_id(h) == b.hash_to_id(
        h,
    ) by {
        let i = choose|i: int| 0 <= i < a.cids@.len() && a.cids@[i].hash@ == h;
        a.lemma_row_id(i);
        b.lemma_row_id(i);
    }
    assert forall|x: u64| a.has_id(x) implies #[trigger] a.id_to_hash(x) == b.id_to_hash(x) by {
        let i = choose|i: int| 0 <= i < a.cids@.len() && a.cids@[i].id == x;
        a.lemma_row_hash(i);
        b.lemma_row_hash(i);
    }
}

/// Two stores with the same edge table have the same edges.
pub proof fn lemma_same_refs_edges(a: Store, b: Store)
    requires
        a.refs@ == b.refs@,
    ensures
        forall|p: u64, c: u64| #[trigger] a.has_edge(p, c) == b.has_edge(p, c),
{
    assert forall|p: u64, c: u64| #[trigger] a.has_edge(p, c) == b.has_edge(p, c) by {
        if a.has_edge(p, c) {
            let i = choose|i: int|
                0 <= i < a.refs@.len() && a.refs@[i].parent == p && a.refs@[i].child == c;
            assert(b.refs@[i].parent == p && b.refs@[i].child == c);
        }
        if b.has_edge(p, c) {
            let i = choose|i: int|
                0 <= i < b.refs@.len() && b.refs@[i].parent == p && b.refs@[i].child == c;
            assert(a.refs@[i].parent == p && a.refs@[i].child == c);
        }
    }
}

/// Two stores with the same block table store the same payloads.
pub proof fn lemma_same_blocks(a: Store, b: Store)
    requires
        a.blocks@ == b.blocks@,
        forall|i: int, j: int| 0 <= i < j < a.blocks@.len() ==> a.blocks@[i].id != a.blocks@[j].id,
    ensures
        forall|x: u64| #[trigger] a.has_block_id(x) == b.has_block_id(x),
        forall|x: u64| a.has_block_id(x) ==> #[trigger] a.payload_of(x) == b.payload_of(x),
{
    assert forall|x: u64| #[trigger] a.has_block_id(x) == b.has_block_id(x) by {
        if a.has_block_id(x) {
            let i = choose|i: int| 0 <= i < a.blocks@.len() && a.blocks@[i].id == x;
            assert(b.blocks@[i].id == x);
        }
        if b.has_block_id(x) {
            let i = choose|i: int| 0 <= i < b.blocks@.len() && b.blocks@[i].id == x;
            assert(a.blocks@[i].id == x);
        }
    }
    assert forall|x: u64| a.has_block_id(x) implies #[trigger] a.payload_of(x) == b.payload_of(
        x,
    ) by {
        let i = choose|i: int| 0 <= i < a.blocks@.len() && a.blocks@[i].id == x;
        a.lemma_block_row(i);
        b.lemma_block_row(i);
    }
}

/// A duplicate-free vector of interned identifiers is no longer than the
/// identifier table.
pub proof fn lemma_distinct_ids_bound(s: Store, v: Seq<u64>)
    requires
        v.no_duplicates(),
        forall|i: int| 0 <= i < v.len() ==> s.has_id(#[trigger] v[i]),
    ensures
        v.len() <= s.cids@.len(),
{
    broadcast use group_seq_properties;

    let idseq = s.cids@.map_values(|r: CidRow| r.id);
    v.unique_seq_to_set();
    idseq.lemma_cardinality_of_set();
    assert forall|x: u64| v.to_set().contains(x) implies idseq.to_set().contains(x) by {
        assert(v.contains(x));
        let i = choose|i: int| 0 <= i < s.cids@.len() && s.cids@[i].id == x;
        assert(idseq[i] == x);
        assert(idseq.contains(x));
    }
    vstd::set_lib::lemma_len_subset(v.to_set(), idseq.to_set());
    assert(idseq.len() == s.cids@.len());
}

/// A store whose identifier and block tables and stats summary agree with
/// a coherent store is itself coherent.
pub proof fn lemma_same_storage_stats(a: Store, b: Store)
    requires
        a.cids@ == b.cids@,
        a.blocks@ == b.blocks@,
        a.stats == b.stats,
        a.stats_ok(),
    ensures
        b.stats_ok(),
{
    assert forall|x: u64| a.id_set().contains(x) == b.id_set().contains(x) by {
        if a.has_id(x) {
            let i = choose|i: int| 0 <= i < a.cids@.len() && a.cids@[i].id == x;
            assert(b.cids@[i].id == x);
        }
        if b.has_id(x) {
            let i = choose|i: int| 0 <= i < b.cids@.len() && b.cids@[i].id == x;
            assert(a.cids@[i].id == x);
        }
    }
    assert(a.id_set() =~= b.id_set());
}

/// The largest pin id in a transient pin table, at least 1: fresh pin ids
/// are allocated one past it, so they are at least 2.
pub open spec fn max_pin_of(ps: Seq<PinRow>) -> u64
    decreases ps.len(),
{
    if ps.len() == 0 {
        1
    } else {
        let m = max_pin_of(ps.drop_last());
        if ps.last().pin > m {
            ps.last().pin
        } else {
            m
        }
    }
}

/// Every pin id is bounded by the table's maximum.
pub proof fn lemma_max_pin_bound(ps: Seq<PinRow>)
    ensures
        max_pin_of(ps) >= 1,
        forall|i: int| 0 <= i < ps.len() ==> (#[trigger] ps[i]).pin <= max_pin_of(ps),
    decreases ps.len(),
{
    if ps.len() > 0 {
        lemma_max_pin_bound(ps.drop_last());
        assert(forall|i: int| 0 <= i < ps.len() - 1 ==> ps[i] == ps.drop_last()[i]);
    }
}

/// Byte-vector equality at the view level.
pub fn bytes_eq(a: &Vec<u8>, b: &Vec<u8>) -> (r: bool)
    ensures
        r == (a@ == b@),
{
    if a.len() != b.len() {
        return false;
    }
    let mut i: usize = 0;
    while i < a.len()
        invariant
            a@.len() == b@.len(),
            0 <= i <= a@.len(),
            forall|k: int| 0 <= k < i ==> a@[k] == b@[k],
        decreases a@.len() - i,
    {
        if a[i] != b[i] {
            return false;
        }
        i += 1;
    }
    proof {
        assert(a@ =~= b@);
    }
    true
}

/// Whether a vector of identifiers contains `x`.
pub fn contains_u64(v: &Vec<u64>, x: u64) -> (r: bool)
    ensures
        r == v@.contains(x),
{
    let mut i: usize = 0;
    while i < v.len()
        invariant
            0 <= i <= v@.len(),
            forall|k: int| 0 <= k < i ==> v@[k] != x,
        decreases v@.len() - i,
    {
        if v[i] == x {
            return true;
        }
        i += 1;
    }
    false
}

impl Store {
    /// Look up the identifier interned for a hash, if any.
    pub fn get_id(&self, hash: &Vec<u8>) -> (r: Option<u64>)
        requires
            self.wf(),
        ensures
            match r {
                Some(id) => self.has_hash(hash@) && id == self.hash_to_id(hash@) && self.has_id(id),
                None => !self.has_hash(hash@),
            },
    {
        let mut i: usize = 0;
        while i < self.cids.len()
            invariant
                self.wf(),
                0 <= i <= self.cids@.len(),
                forall|k: int| 0 <= k < i ==> self.cids@[k].hash@ != hash@,
            decreases self.cids@.len() - i,
        {
            if bytes_eq(&self.cids[i].hash, hash) {
                proof {
                    self.lemma_row_id(i as int);
                    self.lemma_row_hash(i as int);
                }
                return Some(self.cids[i].id);
            }
            i += 1;
        }
        None
    }

    /// The hash interned as `id`.
    pub fn hash_of_id(&self, id: u64) -> (r: Vec<u8>)
        requires
            self.wf(),
            self.has_id(id),
        ensures
            r@ == self.id_to_hash(id),
    {
        let mut i: usize = 0;
        while i < self.cids.len()
            invariant
                self.wf(),
                self.has_id(id),
                0 <= i <= self.cids@.len(),
                forall|k: int| 0 <= k < i ==> self.cids@[k].id != id,
            decreases self.cids@.len() - i,
        {
            if self.cids[i].id == id {
                proof {
                    self.lemma_row_hash(i as int);
                }
                return self.cids[i].hash.clone();
            }
            i += 1;
        }
        proof {
            assert(false);
        }
        unreached()
    }

    /// Intern a hash: return its identifier, assigning the next free one on
    /// first sight. Everything but the identifier table is untouched.
    #[verifier::rlimit(50)]
    #[verifier::spinoff_prover]
    pub fn get_or_create_id(&mut self, hash: &Vec<u8>) -> (id: u64)
        requires
            old(self).wf(),
            old(self).next_id < u64::MAX,
        ensures
            final(self).wf(),
            final(self).has_hash(hash@),
            final(self).has_id(id),
            id == final(self).hash_to_id(hash@),
            old(self).has_hash(hash@) ==> *final(self) == *old(self) && id == old(self).hash_to_id(
                hash@,
            ),
            !old(self).has_hash(hash@) ==> id == old(self).next_id && final(self).next_id == old(
                self,
            ).next_id + 1 && final(self).cids@.len() == old(self).cids@.len() + 1,
            final(self).refs@ == old(self).refs@,
            final(self).blocks@ == old(self).blocks@,
            final(self).aliases@ == old(self).aliases@,
            final(self).pins@ == old(self).pins@,
            final(self).stats == old(self).stats,
            final(self).cids@.take(old(self).cids@.len() as int) == old(self).cids@,
            forall|x: u64| #[trigger] final(self).has_id(x) <==> old(self).has_id(x) || x == id,
            forall|h2: Seq<u8>|
                #[trigger] final(self).has_hash(h2) <==> old(self).has_hash(h2) || h2 == hash@,
            forall|h2: Seq<u8>|
                old(self).has_hash(h2) ==> final(self).hash_to_id(h2) == old(self).hash_to_id(h2),
            old(self).next_id <= final(self).next_id <= old(self).next_id + 1,
    {
        let found = self.get_id(hash);
        match found {
            Some(id) => {
                proof {
                    assert(self.wf());
                    assert(old(self).has_hash(hash@) && old(self).has_id(id));
                    assert(self.cids@.take(self.cids@.len() as int) =~= self.cids@);
                }
                id
            },
            None => {
                let id = self.next_id;
                self.cids.push(CidRow { id, hash: hash.clone() });
                self.next_id = self.next_id + 1;
                proof {
                    let pre = *old(self);
                    let n = pre.cids@.len() as int;
                    assert(self.cids@.take(n) =~= pre.cids@);
                    assert(self.cids@.last().id == id && self.cids@.last().hash@ == hash@);
                    // the new row determines the maps for the new hash
                    assert forall|a: int, b: int|
                        0 <= a < b < self.cids@.len() implies self.cids@[a].hash@
                        != self.cids@[b].hash@ by {
                        if b == self.cids@.len() - 1 {
                            assert(!pre.has_hash(hash@));
                            assert(pre.cids@[a].hash@ != hash@);
                        }
                    }
                    self.lemma_row_id(self.cids@.len() - 1);
                    assert forall|a: int, b: int|
                        0 <= a < b < self.cids@.len() implies self.cids@[a].id
                        != self.cids@[b].id by {
                        if b == self.cids@.len() - 1 {
                            assert(pre.cids@[a].id < pre.next_id);
                        }
                    }
                    // old rows keep their maps
                    assert forall|h2: Seq<u8>| pre.has_hash(h2) implies self.has_hash(h2)
                        && self.hash_to_id(h2) == pre.hash_to_id(h2) by {
                        let i = choose|i: int| 0 <= i < pre.cids@.len() && pre.cids@[i].hash@ == h2;
                        pre.lemma_row_id(i);
                        assert(self.cids@[i] == pre.cids@[i]);
                        self.lemma_row_id(i);
                    }
                    assert forall|h2: Seq<u8>| #[trigger] self.has_hash(h2) implies pre.has_hash(h2)
                        || h2 == hash@ by {
                        let i = choose|i: int|
                            0 <= i < self.cids@.len() && self.cids@[i].hash@ == h2;
                        if i < n {
                            assert(pre.cids@[i].hash@ == h2);
                        }
                    }
                    assert forall|x: u64| #[trigger] self.has_id(x) implies pre.has_id(x) || x
                        == id by {
                        let i = choose|i: int| 0 <= i < self.cids@.len() && self.cids@[i].id == x;
                        if i < n {
                            assert(pre.cids@[i].id == x);
                        }
                    }
                    // stats stay coherent: the fresh id is on no block row
                    assert forall|x: u64| pre.has_id(x) implies self.has_id(x) by {
                        let i = choose|i: int| 0 <= i < pre.cids@.len() && pre.cids@[i].id == x;
                        assert(self.cids@[i] == pre.cids@[i]);
                    }
                    assert(self.id_set() =~= pre.id_set().insert(id));
                    lemma_live_id_irrelevant(pre.id_set(), pre.blocks@, id);
                    assert(self.stats_ok());
                    assert(self.cids_ok());
                    assert(self.refs_ok());
                    assert(self.blocks_ok());
                    assert(self.aliases_ok());
                    assert(self.pins_ok());
                    assert(self.wf());
                }
                id
            },
        }
    }

    /// Whether there is a link edge from `p` to `c`.
    pub fn has_edge_between(&self, p: u64, c: u64) -> (r: bool)
        ensures
            r == self.has_edge(p, c),
    {
        let mut i: usize = 0;
        while i < self.refs.len()
            invariant
                0 <= i <= self.refs@.len(),
                forall|k: int|
                    0 <= k < i ==> !(self.refs@[k].parent == p && self.refs@[k].child == c),
            decreases self.refs@.len() - i,
        {
            if self.refs[i].parent == p && self.refs[i].child == c {
                return true;
            }
            i += 1;
        }
        false
    }

    /// Intern each link hash and record the link edges out of `id`,
    /// collapsing duplicates: the edge relation is a set.
    #[verifier::rlimit(100)]
    #[verifier::spinoff_prover]
    fn insert_links(&mut self, id: u64, links: &Vec<Vec<u8>>)
        requires
            old(self).wf(),
            old(self).has_id(id),
            old(self).next_id + links@.len() <= u64::MAX,
        ensures
            final(self).wf(),
            final(self).blocks@ == old(self).blocks@,
            final(self).aliases@ == old(self).aliases@,
            final(self).pins@ == old(self).pins@,
            final(self).stats == old(self).stats,
            old(self).next_id <= final(self).next_id <= old(self).next_id + links@.len(),
            forall|h2: Seq<u8>|
                #[trigger] final(self).has_hash(h2) <==> old(self).has_hash(h2) || exists|k: int|
                    0 <= k < links@.len() && links@[k]@ == h2,
            forall|h2: Seq<u8>|
                old(self).has_hash(h2) ==> final(self).has_hash(h2) && final(self).hash_to_id(h2)
                    == old(self).hash_to_id(h2),
            forall|x: u64| old(self).has_id(x) ==> final(self).has_id(x),
            forall|p: u64, c: u64|
                #[trigger] final(self).has_edge(p, c) <==> old(self).has_edge(p, c) || (p == id
                    && exists|k: int|
                    0 <= k < links@.len() && c == final(self).hash_to_id(links@[k]@)),
    {
        let ghost pre = *old(self);
        let mut k: usize = 0;
        while k < links.len()
            invariant
                self.wf(),
                self.has_id(id),
                0 <= k <= links@.len(),
                pre.next_id <= self.next_id <= pre.next_id + k,
                self.next_id + (links@.len() - k) <= u64::MAX,
                self.blocks@ == pre.blocks@,
                self.aliases@ == pre.aliases@,
                self.pins@ == pre.pins@,
                self.stats == pre.stats,
                forall|h2: Seq<u8>|
                    #[trigger] self.has_hash(h2) <==> pre.has_hash(h2) || exists|k2: int|
                        0 <= k2 < k && links@[k2]@ == h2,
                forall|h2: Seq<u8>|
                    pre.has_hash(h2) ==> self.has_hash(h2) && self.hash_to_id(h2)
                        == pre.hash_to_id(h2),
                forall|x: u64| pre.has_id(x) ==> self.has_id(x),
                forall|p: u64, c: u64|
                    #[trigger] self.has_edge(p, c) <==> pre.has_edge(p, c) || (p == id && exists|
                        k2: int,
                    |
                        0 <= k2 < k && c == self.hash_to_id(links@[k2]@)),
            decreases links@.len() - k,
        {
            let ghost prev = *self;
            let child = self.get_or_create_id(&links[k]);
            let ghost mid = *self;
            proof {
                assert forall|k2: int| 0 <= k2 < k implies prev.has_hash(#[trigger] links@[k2]@)
                    && mid.hash_to_id(links@[k2]@) == prev.hash_to_id(links@[k2]@) by {
                    assert(prev.has_hash(links@[k2]@));
                }
            }
            if !self.has_edge_between(id, child) {
                self.refs.push(RefRow { parent: id, child });
                proof {
                    lemma_same_cids_maps(mid, *self);
                    assert forall|p: u64, c: u64| mid.has_edge(p, c) implies self.has_edge(
                        p,
                        c,
                    ) by {
                        let i = choose|i: int|
                            0 <= i < mid.refs@.len() && mid.refs@[i].parent == p
                                && mid.refs@[i].child == c;
                        assert(self.refs@[i].parent == p && self.refs@[i].child == c);
                    }
                    assert forall|a: int, b: int|
                        0 <= a < b < self.refs@.len() implies self.refs@[a] != self.refs@[b] by {
                        if b == self.refs@.len() - 1 {
                            if self.refs@[a] == self.refs@[b] {
                                assert(mid.has_edge(id, child));
                            }
                        }
                    }
                    assert forall|x: u64| self.id_set().contains(x) == mid.id_set().contains(
                        x,
                    ) by {
                        assert(self.cids@ == mid.cids@);
                    }
                    assert(self.id_set() =~= mid.id_set());
                    assert(self.stats_ok());
                    assert(self.wf());
                    assert forall|p: u64, c: u64| #[trigger] self.has_edge(p, c) implies mid
                        .has_edge(p, c) || (p == id && c == child) by {
                        let i = choose|i: int|
                            0 <= i < self.refs@.len() && self.refs@[i].parent == p
                                && self.refs@[i].child == c;
                        if i < self.refs@.len() - 1 {
                            assert(mid.refs@[i].parent == p && mid.refs@[i].child == c);
                        }
                    }
                    assert(self.refs@[self.refs@.len() - 1].parent == id
                        && self.refs@[self.refs@.len() - 1].child == child);
                    assert(self.has_edge(id, child));
                }
            }
            proof {
                lemma_same_cids_maps(mid, *self);
                lemma_same_refs_edges(mid, prev);
                assert(mid.hash_to_id(links@[k as int]@) == child);
                assert(self.has_hash(links@[k as int]@));
                assert(self.hash_to_id(links@[k as int]@) == child);
                assert(self.has_edge(id, child));
                assert forall|k2: int| 0 <= k2 < k + 1 implies self.has_hash(
                    #[trigger] links@[k2]@,
                ) && self.hash_to_id(links@[k2]@) == (if k2 < k {
                    prev.hash_to_id(links@[k2]@)
                } else {
                    child
                }) by {
                    if k2 < k {
                        assert(prev.has_hash(links@[k2]@));
                        assert(mid.hash_to_id(links@[k2]@) == prev.hash_to_id(links@[k2]@));
                    }
                }
                assert forall|p: u64, c: u64| #[trigger] self.has_edge(p, c) == (pre.has_edge(p, c)
                    || (p == id && exists|k2: int|
                    0 <= k2 < k + 1 && c == self.hash_to_id(links@[k2]@))) by {
                    if self.has_edge(p, c) {
                        if mid.has_edge(p, c) {
                            assert(prev.has_edge(p, c));
                            if !pre.has_edge(p, c) {
                                let k2 = choose|k2: int|
                                    0 <= k2 < k && c == prev.hash_to_id(links@[k2]@);
                                assert(c == self.hash_to_id(links@[k2]@));
                                assert(0 <= k2 < k + 1 && c == self.hash_to_id(links@[k2]@));
                            }
                        } else {
                            assert(p == id && c == child);
                            assert(c == self.hash_to_id(links@[k as int]@));
                            assert(0 <= k < k + 1 && c == self.hash_to_id(links@[k as int]@));
                        }
                    }
                    if pre.has_edge(p, c) {
                        assert(prev.has_edge(p, c));
                        assert(mid.has_edge(p, c));
                        assert(self.has_edge(p, c));
                    }
                    if p == id && (exists|k2: int|
                        0 <= k2 < k + 1 && c == self.hash_to_id(links@[k2]@)) {
                        let k2 = choose|k2: int|
                            0 <= k2 < k + 1 && c == self.hash_to_id(links@[k2]@);
                        if k2 < k {
                            assert(c == prev.hash_to_id(links@[k2]@));
                            assert(prev.has_edge(p, c));
                            assert(mid.has_edge(p, c));
                            assert(self.has_edge(p, c));
                        } else {
                            assert(c == child);
                            assert(self.has_edge(p, c));
                        }
                    }
                }
                assert forall|h2: Seq<u8>| #[trigger] self.has_hash(h2) implies pre.has_hash(h2)
                    || exists|k2: int| 0 <= k2 < k + 1 && links@[k2]@ == h2 by {
                    assert(mid.has_hash(h2));
                    if !prev.has_hash(h2) {
                        assert(h2 == links@[k as int]@);
                    } else {
                        if !pre.has_hash(h2) {
                            let k2 = choose|k2: int| 0 <= k2 < k && links@[k2]@ == h2;
                            assert(0 <= k2 < k + 1 && links@[k2]@ == h2);
                        }
                    }
                }
                assert forall|h2: Seq<u8>|
                    (pre.has_hash(h2) || exists|k2: int|
                        0 <= k2 < k + 1 && links@[k2]@ == h2) implies #[trigger] self.has_hash(
                    h2,
                ) by {
                    if !pre.has_hash(h2) {
                        let k2 = choose|k2: int| 0 <= k2 < k + 1 && links@[k2]@ == h2;
                        assert(self.has_hash(links@[k2]@));
                    }
                }
            }
            k += 1;
        }
    }

    /// Write the payload and link edges for an interned identifier that may
    /// or may not already have a payload. If it does, nothing changes:
    /// content addressing makes the payload and its outgoing edges
    /// immutable. Otherwise the payload is stored, the stats summary grows
    /// by its size, each link hash is interned, and the link edges are
    /// recorded as a set.
    #[verifier::rlimit(100)]
    #[verifier::spinoff_prover]
    fn put_block_data(&mut self, id: u64, payload: &Vec<u8>, links: &Vec<Vec<u8>>)
        requires
            old(self).wf(),
            old(self).has_id(id),
            old(self).next_id + links@.len() <= u64::MAX,
            old(self).stats.count < u64::MAX,
            old(self).stats.size + payload@.len() <= u64::MAX,
        ensures
            final(self).wf(),
            old(self).has_block_id(id) ==> *final(self) == *old(self),
            final(self).aliases@ == old(self).aliases@,
            final(self).pins@ == old(self).pins@,
            old(self).next_id <= final(self).next_id <= old(self).next_id + links@.len(),
            forall|h2: Seq<u8>|
                #[trigger] final(self).has_hash(h2) <==> old(self).has_hash(h2) || (!old(self).has_block_id(id)
                    && exists|k: int| 0 <= k < links@.len() && links@[k]@ == h2),
            forall|h2: Seq<u8>|
                old(self).has_hash(h2) ==> final(self).has_hash(h2) && final(self).hash_to_id(h2)
                    == old(self).hash_to_id(h2),
            forall|x: u64| old(self).has_id(x) ==> final(self).has_id(x),
            forall|b: u64|
                #[trigger] final(self).has_block_id(b) <==> old(self).has_block_id(b) || b == id,
            forall|b: u64|
                old(self).has_block_id(b) ==> final(self).payload_of(b) == old(self).payload_of(b),
            forall|p: u64, c: u64| old(self).has_edge(p, c) ==> final(self).has_edge(p, c),
            !old(self).has_block_id(id) ==> final(self).stats.count == old(self).stats.count + 1
                && final(self).stats.size == old(self).stats.size + payload@.len()
                && final(self).payload_of(id) == payload@,
            !old(self).has_block_id(id) ==> forall|p: u64, c: u64|
                #[trigger] final(self).has_edge(p, c) <==> old(self).has_edge(p, c) || (p == id
                    && exists|k: int|
                    0 <= k < links@.len() && c == final(self).hash_to_id(links@[k]@)),
            old(self).has_block_id(id) ==> final(self).stats == old(self).stats,
    {
        if self.has_block_for_id(id) {
            return ;
        }
        let ghost pre = *old(self);
        self.blocks.push(BlockRow { id, payload: payload.clone() });
        self.stats =
        StoreStats {
            count: self.stats.count + 1,
            size: self.stats.size + payload.len() as u64,
        };
        proof {
            lemma_live_push(pre.id_set(), pre.blocks@, self.blocks@.last());
            assert(pre.id_set().contains(id));
            assert forall|a: int, b: int|
                0 <= a < b < self.blocks@.len() implies self.blocks@[a].id
                != self.blocks@[b].id by {
                if b == self.blocks@.len() - 1 {
                    assert(pre.blocks@[a].id != id);
                }
            }
            let ci = choose|i: int| 0 <= i < pre.cids@.len() && pre.cids@[i].id == id;
            assert(1 <= id < pre.next_id);
            lemma_same_cids_maps(pre, *self);
            assert forall|x: u64| self.id_set().contains(x) == pre.id_set().contains(x) by {
                assert(self.cids@ == pre.cids@);
            }
            assert(self.id_set() =~= pre.id_set());
            assert(self.stats_ok());
            assert(self.wf());
        }
        let ghost mid = *self;
        self.insert_links(id, links);
        proof {
            // block rows are untouched by the link pass
            assert(self.blocks@ == mid.blocks@);
            assert forall|b: u64| #[trigger] self.has_block_id(b) implies pre.has_block_id(b) || b
                == id by {
                let i = choose|i: int| 0 <= i < self.blocks@.len() && self.blocks@[i].id == b;
                if i < self.blocks@.len() - 1 {
                    assert(pre.blocks@[i].id == b);
                }
            }
            assert forall|b: u64| pre.has_block_id(b) implies self.has_block_id(b)
                && self.payload_of(b) == pre.payload_of(b) by {
                let i = choose|i: int| 0 <= i < pre.blocks@.len() && pre.blocks@[i].id == b;
                assert(self.blocks@[i] == pre.blocks@[i]);
                pre.lemma_block_row(i);
                self.lemma_block_row(i);
            }
            assert(self.payload_of(id) == payload@) by {
                self.lemma_block_row(self.blocks@.len() - 1);
            }
            // hashes and edges seen through the link pass, lifted to the entry state
            lemma_same_cids_maps(mid, pre);
            lemma_same_refs_edges(mid, pre);
            lemma_same_blocks(*self, mid);
        }
    }

    /// Ingest a block: intern the hash, and if no payload is stored for it
    /// yet, store the payload, update the stats summary, and record one
    /// link edge per link hash (interning those hashes too). A block that
    /// is already present is left exactly as it was: content addressing
    /// makes payloads and their outgoing edges immutable.
    #[verifier::rlimit(100)]
    #[verifier::spinoff_prover]
    pub fn put_block(&mut self, hash: &Vec<u8>, payload: &Vec<u8>, links: &Vec<Vec<u8>>) -> (id:
        u64)
        requires
            old(self).wf(),
            old(self).next_id + links@.len() < u64::MAX,
            old(self).stats.count < u64::MAX,
            old(self).stats.size + payload@.len() <= u64::MAX,
        ensures
            final(self).wf(),
            final(self).has_hash(hash@),
            id == final(self).hash_to_id(hash@),
            final(self).has_block_id(id),
            final(self).lookup_block(hash@) == Some(
                (
                    id,
                    if old(self).has_block_hash(hash@) {
                        old(self).payload_of(old(self).hash_to_id(hash@))
                    } else {
                        payload@
                    },
                ),
            ),
            old(self).has_block_hash(hash@) ==> *final(self) == *old(self)
                && id == old(self).hash_to_id(hash@),
            final(self).aliases@ == old(self).aliases@,
            final(self).pins@ == old(self).pins@,
            old(self).next_id <= final(self).next_id <= old(self).next_id + 1 + links@.len(),
            forall|h2: Seq<u8>|
                old(self).has_hash(h2) ==> final(self).has_hash(h2) && final(self).hash_to_id(h2)
                    == old(self).hash_to_id(h2),
            forall|x: u64| old(self).has_id(x) ==> final(self).has_id(x),
            forall|b: u64|
                old(self).has_block_id(b) ==> final(self).has_block_id(b)
                    && final(self).payload_of(b) == old(self).payload_of(b),
            forall|b: u64|
                #[trigger] final(self).has_block_id(b) <==> old(self).has_block_id(b) || b == id,
            forall|p: u64, c: u64| old(self).has_edge(p, c) ==> final(self).has_edge(p, c),
            forall|h2: Seq<u8>|
                #[trigger] final(self).has_hash(h2) <==> old(self).has_hash(h2) || h2 == hash@ || (
                !old(self).has_block_hash(hash@) && exists|k: int|
                    0 <= k < links@.len() && links@[k]@ == h2),
            !old(self).has_block_hash(hash@) ==> final(self).stats.count == old(self).stats.count
                + 1 && final(self).stats.size == old(self).stats.size + payload@.len()
                && final(self).payload_of(id) == payload@,
            old(self).has_block_hash(hash@) ==> final(self).stats == old(self).stats,
            !old(self).has_block_hash(hash@) ==> forall|p: u64, c: u64|
                #[trigger] final(self).has_edge(p, c) <==> old(self).has_edge(p, c) || (p == id
                    && exists|k: int|
                    0 <= k < links@.len() && c == final(self).hash_to_id(links@[k]@)),
    {
        let id = self.get_or_create_id(hash);
        let ghost mid = *self;
        proof {
            lemma_same_blocks(mid, *old(self));
            if !old(self).has_hash(hash@) {
                // a fresh identifier cannot already carry a payload
                if mid.has_block_id(id) {
                    let i = choose|i: int|
                        0 <= i < mid.blocks@.len() && mid.blocks@[i].id == id;
                    assert(mid.blocks@[i].id < old(self).next_id);
                }
            }
            assert(mid.has_block_id(id) == old(self).has_block_hash(hash@));
        }
        self.put_block_data(id, payload, links);
        proof {
            assert(final(self).has_hash(hash@) && final(self).hash_to_id(hash@) == id);
            if old(self).has_block_hash(hash@) {
                assert(mid == *old(self));
            }
            assert(self.has_block_id(id));
            assert(self.has_block_hash(hash@));
            assert(self.lookup_block(hash@) == Some((id, self.payload_of(id))));
            if old(self).has_block_hash(hash@) {
                assert(self.payload_of(id) == old(self).payload_of(old(self).hash_to_id(hash@)));
            }
            assert forall|h2: Seq<u8>| #[trigger] self.has_hash(h2) == (old(self).has_hash(h2)
                || h2 == hash@ || (!old(self).has_block_hash(hash@) && exists|k: int|
                0 <= k < links@.len() && links@[k]@ == h2)) by {
                assert(mid.has_hash(h2) == (old(self).has_hash(h2) || h2 == hash@));
            }
        }
        id
    }

    /// Whether a payload is stored for identifier `id`.
    pub fn has_block_for_id(&self, id: u64) -> (r: bool)
        ensures
            r == self.has_block_id(id),
    {
        let mut i: usize = 0;
        while i < self.blocks.len()
            invariant
                0 <= i <= self.blocks@.len(),
                forall|k: int| 0 <= k < i ==> self.blocks@[k].id != id,
            decreases self.blocks@.len() - i,
        {
            if self.blocks[i].id == id {
                return true;
            }
            i += 1;
        }
        false
    }

    /// Whether the identifier `id` is interned.
    pub fn has_id_present(&self, id: u64) -> (r: bool)
        ensures
            r == self.has_id(id),
    {
        let mut i: usize = 0;
        while i < self.cids.len()
            invariant
                0 <= i <= self.cids@.len(),
                forall|k: int| 0 <= k < i ==> self.cids@[k].id != id,
            decreases self.cids@.len() - i,
        {
            if self.cids[i].id == id {
                return true;
            }
            i += 1;
        }
        false
    }

    /// Whether the transient pin table holds the pair `(pin, id)`.
    fn has_pin_pair(&self, pin: u64, id: u64) -> (r: bool)
        ensures
            r == self.has_pin_row(pin, id),
    {
        let mut i: usize = 0;
        while i < self.pins.len()
            invariant
                0 <= i <= self.pins@.len(),
                forall|k: int| 0 <= k < i ==> self.pins@[k] != (PinRow { pin, id }),
            decreases self.pins@.len() - i,
        {
            if self.pins[i].pin == pin && self.pins[i].id == id {
                return true;
            }
            i += 1;
        }
        false
    }

    /// The largest pin id in the transient pin table, at least 1.
    fn max_pin(&self) -> (r: u64)
        ensures
            r == max_pin_of(self.pins@),
    {
        let mut m: u64 = 1;
        let mut i: usize = 0;
        while i < self.pins.len()
            invariant
                0 <= i <= self.pins@.len(),
                m == max_pin_of(self.pins@.take(i as int)),
            decreases self.pins@.len() - i,
        {
            proof {
                assert(self.pins@.take(i + 1).drop_last() =~= self.pins@.take(i as int));
                assert(self.pins@.take(i + 1).last() == self.pins@[i as int]);
            }
            if self.pins[i].pin > m {
                m = self.pins[i].pin;
            }
            i += 1;
        }
        proof {
            assert(self.pins@.take(self.pins@.len() as int) =~= self.pins@);
        }
        m
    }

    /// Ingest a block under a transient pin session handle. The identifier
    /// is pinned even when the block already exists, so a caller re-pinning
    /// an existing block always wins. An unassigned handle is first
    /// assigned a fresh pin id, one past the table's maximum; the only
    /// failure is exhaustion of the pin id space, which leaves the store
    /// and the handle untouched.
    #[verifier::rlimit(100)]
    #[verifier::spinoff_prover]
    pub fn put_block_pinned(
        &mut self,
        hash: &Vec<u8>,
        payload: &Vec<u8>,
        links: &Vec<Vec<u8>>,
        pin: &mut TempPin,
    ) -> (r: Result<u64, StoreError>)
        requires
            old(self).wf(),
            old(self).next_id + links@.len() < u64::MAX,
            old(self).stats.count < u64::MAX,
            old(self).stats.size + payload@.len() <= u64::MAX,
        ensures
            r is Err <==> old(pin).id <= 1 && max_pin_of(old(self).pins@) == u64::MAX,
            r is Err ==> *final(self) == *old(self) && *final(pin) == *old(pin) && r == Err::<
                u64,
                StoreError,
            >(StoreError::PinIdsExhausted),
            old(self).next_id <= final(self).next_id <= old(self).next_id + 1 + links@.len(),
            r matches Ok(id) ==> {
                &&& final(self).wf()
                &&& final(self).has_hash(hash@)
                &&& id == final(self).hash_to_id(hash@)
                &&& final(self).has_block_id(id)
                &&& forall|h2: Seq<u8>|
                    #[trigger] final(self).has_hash(h2) <==> old(self).has_hash(h2) || h2 == hash@
                        || (!old(self).has_block_hash(hash@) && exists|k: int|
                        0 <= k < links@.len() && links@[k]@ == h2)
                &&& forall|b: u64|
                    #[trigger] final(self).has_block_id(b) <==> old(self).has_block_id(b) || b
                        == id
                &&& (!old(self).has_block_hash(hash@) ==> final(self).payload_of(id) == payload@)
                &&& (!old(self).has_block_hash(hash@) ==> forall|p: u64, c: u64|
                    #[trigger] final(self).has_edge(p, c) <==> old(self).has_edge(p, c) || (p == id
                        && exists|k: int|
                        0 <= k < links@.len() && c == final(self).hash_to_id(links@[k]@)))
                &&& final(self).lookup_block(hash@) == Some(
                    (
                        id,
                        if old(self).has_block_hash(hash@) {
                            old(self).payload_of(old(self).hash_to_id(hash@))
                        } else {
                            payload@
                        },
                    ),
                )
                &&& final(self).aliases@ == old(self).aliases@
                &&& final(pin).id >= 2
                &&& (old(pin).id >= 2 ==> final(pin).id == old(pin).id)
                &&& (old(pin).id <= 1 ==> final(pin).id == max_pin_of(old(self).pins@) + 1)
                &&& final(self).pinned(id)
                &&& forall|q: u64, y: u64|
                    #[trigger] final(self).has_pin_row(q, y) <==> old(self).has_pin_row(q, y) || (q
                        == final(pin).id && y == id)
                &&& forall|h2: Seq<u8>|
                    old(self).has_hash(h2) ==> final(self).has_hash(h2) && final(self).hash_to_id(
                        h2,
                    ) == old(self).hash_to_id(h2)
                &&& forall|b: u64|
                    old(self).has_block_id(b) ==> final(self).has_block_id(b)
                        && final(self).payload_of(b) == old(self).payload_of(b)
                &&& forall|p: u64, c: u64| old(self).has_edge(p, c) ==> final(self).has_edge(p, c)
                &&& (!old(self).has_block_hash(hash@) ==> final(self).stats.count
                    == old(self).stats.count + 1 && final(self).stats.size == old(self).stats.size
                    + payload@.len())
                &&& (old(self).has_block_hash(hash@) ==> final(self).stats == old(self).stats
                    && final(self).blocks@ == old(self).blocks@
                    && final(self).refs@ == old(self).refs@
                    && final(self).cids@ == old(self).cids@)
            },
    {
        if pin.id <= 1 {
            let m = self.max_pin();
            if m == u64::MAX {
                return Err(StoreError::PinIdsExhausted);
            }
            pin.id = m + 1;
        }
        let ghost pin_assigned = pin.id;
        let id = self.get_or_create_id(hash);
        let ghost mid = *self;
        proof {
            lemma_max_pin_bound(old(self).pins@);
            lemma_same_blocks(mid, *old(self));
            if !old(self).has_hash(hash@) {
                if mid.has_block_id(id) {
                    let i = choose|i: int| 0 <= i < mid.blocks@.len() && mid.blocks@[i].id == id;
                    assert(mid.blocks@[i].id < old(self).next_id);
                }
            }
            assert(mid.has_block_id(id) == old(self).has_block_hash(hash@));
        }
        if !self.has_pin_pair(pin.id, id) {
            self.pins.push(PinRow { pin: pin.id, id });
            proof {
                assert forall|a: int, b: int|
                    0 <= a < b < self.pins@.len() implies self.pins@[a] != self.pins@[b] by {
                    if b == self.pins@.len() - 1 {
                        if self.pins@[a] == self.pins@[b] {
                            assert(mid.has_pin_row(pin_assigned, id));
                        }
                    }
                }
                lemma_same_cids_maps(mid, *self);
                assert forall|x: u64| self.id_set().contains(x) == mid.id_set().contains(x) by {
                    assert(self.cids@ == mid.cids@);
                }
                assert(self.id_set() =~= mid.id_set());
                assert(self.stats_ok());
                assert(self.wf());
            }
        }
        let ghost mid2 = *self;
        proof {
            lemma_same_blocks(mid2, mid);
            assert(mid2.has_pin_row(pin_assigned, id)) by {
                if mid2.pins@.len() > mid.pins@.len() {
                    assert(mid2.pins@[mid2.pins@.len() - 1] == (PinRow { pin: pin_assigned, id }));
                }
            }
            assert forall|q: u64, y: u64| #[trigger] mid2.has_pin_row(q, y) == (mid.has_pin_row(
                q,
                y,
            ) || (q == pin_assigned && y == id)) by {
                if mid2.has_pin_row(q, y) {
                    let i = choose|i: int|
                        0 <= i < mid2.pins@.len() && mid2.pins@[i] == (PinRow { pin: q, id: y });
                    if i < mid.pins@.len() {
                        assert(mid.pins@[i] == (PinRow { pin: q, id: y }));
                    }
                }
                if mid.has_pin_row(q, y) {
                    let i = choose|i: int|
                        0 <= i < mid.pins@.len() && mid.pins@[i] == (PinRow { pin: q, id: y });
                    assert(mid2.pins@[i] == (PinRow { pin: q, id: y }));
                }
                if q == pin_assigned && y == id {
                    assert(mid2.has_pin_row(q, y));
                }
            }
        }
        self.put_block_data(id, payload, links);
        proof {
            assert(self.pins@ == mid2.pins@);
            assert forall|q: u64, y: u64| #[trigger] self.has_pin_row(q, y) == mid2.has_pin_row(
                q,
                y,
            ) by {
                if self.has_pin_row(q, y) {
                    let i = choose|i: int|
                        0 <= i < self.pins@.len() && self.pins@[i] == (PinRow { pin: q, id: y });
                    assert(mid2.pins@[i] == (PinRow { pin: q, id: y }));
                }
                if mid2.has_pin_row(q, y) {
                    let i = choose|i: int|
                        0 <= i < mid2.pins@.len() && mid2.pins@[i] == (PinRow { pin: q, id: y });
                    assert(self.pins@[i] == (PinRow { pin: q, id: y }));
                }
            }
            assert forall|q: u64, y: u64|
                mid.has_pin_row(q, y) implies old(self).has_pin_row(q, y) by {
                let i = choose|i: int|
                    0 <= i < mid.pins@.len() && mid.pins@[i] == (PinRow { pin: q, id: y });
                assert(old(self).pins@[i] == (PinRow { pin: q, id: y }));
            }
            assert forall|q: u64, y: u64|
                old(self).has_pin_row(q, y) implies mid.has_pin_row(q, y) by {
                let i = choose|i: int|
                    0 <= i < old(self).pins@.len() && old(self).pins@[i] == (PinRow {
                        pin: q,
                        id: y,
                    });
                assert(mid.pins@[i] == (PinRow { pin: q, id: y }));
            }
            assert(self.has_pin_row(pin_assigned, id));
            assert(self.pinned(id)) by {
                let i = choose|i: int|
                    0 <= i < self.pins@.len() && self.pins@[i] == (PinRow {
                        pin: pin_assigned,
                        id,
                    });
                assert(self.pins@[i].id == id);
            }
            assert(self.has_block_hash(hash@));
            if old(self).has_block_hash(hash@) {
                assert(self.payload_of(id) == old(self).payload_of(old(self).hash_to_id(hash@)));
            }
            lemma_same_cids_maps(mid, mid2);
            lemma_same_refs_edges(mid2, *old(self));
            assert(mid2.has_block_id(id) == old(self).has_block_hash(hash@));
            assert forall|h2: Seq<u8>| #[trigger] self.has_hash(h2) == (old(self).has_hash(h2)
                || h2 == hash@ || (!old(self).has_block_hash(hash@) && exists|k: int|
                0 <= k < links@.len() && links@[k]@ == h2)) by {
                assert(mid.has_hash(h2) == (old(self).has_hash(h2) || h2 == hash@));
                assert(mid2.has_hash(h2) == mid.has_hash(h2));
            }
        }
        Ok(id)
    }

    /// Insert a payload row under a fresh identifier that is not interned:
    /// an orphan, as a legacy engine may leave one behind. The stats
    /// summary is unaffected (orphans are never counted); the sweep
    /// removes such rows.
    pub fn insert_orphan_block(&mut self, payload: &Vec<u8>)
        requires
            old(self).wf(),
            old(self).next_id < u64::MAX,
        ensures
            final(self).wf(),
            final(self).cids@ == old(self).cids@,
            final(self).refs@ == old(self).refs@,
            final(self).aliases@ == old(self).aliases@,
            final(self).pins@ == old(self).pins@,
            final(self).stats == old(self).stats,
            final(self).next_id == old(self).next_id + 1,
            final(self).blocks@.len() == old(self).blocks@.len() + 1,
            final(self).blocks@.last().payload@ == payload@,
            !final(self).has_id(final(self).blocks@.last().id),
            forall|b: u64|
                #[trigger] final(self).has_block_id(b) <==> old(self).has_block_id(b) || b == old(self).next_id,
            forall|b: u64|
                old(self).has_block_id(b) ==> final(self).payload_of(b) == old(self).payload_of(b),
    {
        let ghost pre = *old(self);
        let id = self.next_id;
        self.blocks.push(BlockRow { id, payload: payload.clone() });
        self.next_id = self.next_id + 1;
        proof {
            lemma_same_cids_maps(pre, *self);
            lemma_same_refs_edges(pre, *self);
            assert(self.blocks@.last().id == id && self.blocks@.last().payload@ == payload@);
            assert forall|a: int, b: int|
                0 <= a < b < self.blocks@.len() implies self.blocks@[a].id != self.blocks@[b].id by {
                if b == self.blocks@.len() - 1 {
                    assert(pre.blocks@[a].id < pre.next_id);
                }
            }
            assert(!self.has_id(id)) by {
                if self.has_id(id) {
                    let i = choose|i: int| 0 <= i < self.cids@.len() && self.cids@[i].id == id;
                    assert(pre.cids@[i].id < pre.next_id);
                }
            }
            assert forall|x: u64| self.id_set().contains(x) == pre.id_set().contains(x) by {
                assert(self.cids@ == pre.cids@);
            }
            assert(self.id_set() =~= pre.id_set());
            lemma_live_push(pre.id_set(), pre.blocks@, self.blocks@.last());
            assert(!pre.id_set().contains(id)) by {
                if pre.has_id(id) {
                    let i = choose|i: int| 0 <= i < pre.cids@.len() && pre.cids@[i].id == id;
                }
            }
            assert(self.stats_ok());
            assert(self.wf());
            assert forall|b: u64| #[trigger] self.has_block_id(b) == (pre.has_block_id(b) || b
                == id) by {
                if self.has_block_id(b) {
                    let i = choose|i: int| 0 <= i < self.blocks@.len() && self.blocks@[i].id == b;
                    if i < self.blocks@.len() - 1 {
                        assert(pre.blocks@[i].id == b);
                    }
                }
                if pre.has_block_id(b) {
                    let i = choose|i: int| 0 <= i < pre.blocks@.len() && pre.blocks@[i].id == b;
                    assert(self.blocks@[i].id == b);
                }
            }
            assert forall|b: u64| pre.has_block_id(b) implies self.payload_of(b)
                == pre.payload_of(b) by {
                let i = choose|i: int| 0 <= i < pre.blocks@.len() && pre.blocks@[i].id == b;
                pre.lemma_block_row(i);
                assert(self.blocks@[i] == pre.blocks@[i]);
                self.lemma_block_row(i);
            }
        }
    }

    /// All identifiers that have a stored payload, each once.
    #[verifier::rlimit(100)]
    pub fn get_ids(&self) -> (r: Vec<u64>)
        requires
            self.wf(),
        ensures
            r@.no_duplicates(),
            forall|j: int|
                0 <= j < r@.len() ==> self.has_id(#[trigger] r@[j]) && self.has_block_id(r@[j]),
            forall|x: u64|
                self.has_id(x) && #[trigger] self.has_block_id(x) ==> r@.contains(x),
    {
        let mut out: Vec<u64> = Vec::new();
        let mut c: usize = 0;
        while c < self.cids.len()
            invariant
                self.wf(),
                0 <= c <= self.cids@.len(),
                out@.no_duplicates(),
                forall|j: int|
                    0 <= j < out@.len() ==> self.cids@.take(c as int).map_values(
                        |r2: CidRow| r2.id,
                    ).contains(#[trigger] out@[j]),
                forall|j: int|
                    0 <= j < out@.len() ==> self.has_id(#[trigger] out@[j]) && self.has_block_id(
                        out@[j],
                    ),
                forall|i: int|
                    0 <= i < c && self.has_block_id(#[trigger] self.cids@[i].id) ==> out@.contains(
                        self.cids@[i].id,
                    ),
            decreases self.cids@.len() - c,
        {
            let x = self.cids[c].id;
            let ghost opre = out@;
            let ghost mapped = self.cids@.take(c as int).map_values(|r2: CidRow| r2.id);
            let ghost mapped1 = self.cids@.take(c + 1).map_values(|r2: CidRow| r2.id);
            proof {
                self.lemma_row_hash(c as int);
                assert(mapped1[c as int] == x);
            }
            if self.has_block_for_id(x) {
                proof {
                    assert(!out@.contains(x)) by {
                        if out@.contains(x) {
                            let j = choose|j: int| 0 <= j < out@.len() && out@[j] == x;
                            let f = choose|f: int| 0 <= f < mapped.len() && mapped[f] == x;
                            assert(self.cids@[f].id == x && self.cids@[c as int].id == x);
                        }
                    }
                }
                out.push(x);
                proof {
                    assert(out@[out@.len() - 1] == x);
                    assert forall|i: int|
                        0 <= i < c + 1 && self.has_block_id(#[trigger] self.cids@[i].id)
                            implies out@.contains(self.cids@[i].id) by {
                        if i < c && self.has_block_id(self.cids@[i].id) {
                            crate::reach::lemma_push_contains(opre, x, self.cids@[i].id);
                        }
                    }
                    assert forall|j: int| 0 <= j < out@.len() implies mapped1.contains(
                        #[trigger] out@[j],
                    ) by {
                        if j < out@.len() - 1 {
                            let f = choose|f: int| 0 <= f < mapped.len() && mapped[f] == out@[j];
                            assert(mapped1[f] == out@[j]);
                        } else {
                            assert(mapped1[c as int] == out@[j]);
                        }
                    }
                }
            } else {
                proof {
                    assert forall|j: int| 0 <= j < out@.len() implies mapped1.contains(
                        #[trigger] out@[j],
                    ) by {
                        let f = choose|f: int| 0 <= f < mapped.len() && mapped[f] == out@[j];
                        assert(mapped1[f] == out@[j]);
                    }
                }
            }
            c += 1;
        }
        proof {
            assert forall|x: u64|
                self.has_id(x) && #[trigger] self.has_block_id(x) implies out@.contains(x) by {
                let i = choose|i: int| 0 <= i < self.cids@.len() && self.cids@[i].id == x;
            }
        }
        out
    }

    /// The hashes of all blocks in the store (identifiers with a stored
    /// payload), each once.
    #[verifier::rlimit(100)]
    pub fn get_block_cids(&self) -> (r: Vec<Vec<u8>>)
        requires
            self.wf(),
        ensures
            forall|a: int, b: int| 0 <= a < b < r@.len() ==> r@[a]@ != r@[b]@,
            forall|j: int| 0 <= j < r@.len() ==> self.has_block_hash(#[trigger] r@[j]@),
            forall|h: Seq<u8>| #[trigger] self.has_block_hash(h) ==> exists|j: int| 0 <= j < r@.len() && r@[j]@ == h,
    {
        let ids = self.get_ids();
        let out = self.hashes_of_ids(&ids);
        proof {
            assert forall|j: int| 0 <= j < out@.len() implies self.has_block_hash(
                #[trigger] out@[j]@,
            ) by {
                let ci = choose|ci: int| 0 <= ci < self.cids@.len() && self.cids@[ci].id == ids@[j];
                self.lemma_row_hash(ci);
                self.lemma_row_id(ci);
                assert(out@[j]@ == self.cids@[ci].hash@);
            }
            assert forall|h: Seq<u8>| #[trigger] self.has_block_hash(h) implies exists|j: int|
                0 <= j < out@.len() && out@[j]@ == h by {
                let x = self.hash_to_id(h);
                assert(ids@.contains(x));
                let j = choose|j: int| 0 <= j < ids@.len() && ids@[j] == x;
                let ci = choose|ci: int| 0 <= ci < self.cids@.len() && self.cids@[ci].hash@ == h;
                self.lemma_row_id(ci);
                self.lemma_row_hash(ci);
                assert(out@[j]@ == self.id_to_hash(x));
            }
            assert forall|a: int, b: int| 0 <= a < b < out@.len() implies out@[a]@
                != out@[b]@ by {
                self.lemma_id_to_hash_injective(ids@[a], ids@[b]);
            }
        }
        out
    }

    /// The hashes of every interned identifier, block or not, in table
    /// order.
    pub fn get_known_cids(&self) -> (r: Vec<Vec<u8>>)
        requires
            self.wf(),
        ensures
            r@.len() == self.cids@.len(),
            forall|j: int| 0 <= j < r@.len() ==> (#[trigger] r@[j])@ == self.cids@[j].hash@,
    {
        let mut out: Vec<Vec<u8>> = Vec::new();
        let mut c: usize = 0;
        while c < self.cids.len()
            invariant
                self.wf(),
                0 <= c <= self.cids@.len(),
                out@.len() == c,
                forall|j: int| 0 <= j < c ==> (#[trigger] out@[j])@ == self.cids@[j].hash@,
            decreases self.cids@.len() - c,
        {
            out.push(self.cids[c].hash.clone());
            c += 1;
        }
        out
    }

    /// Distinct interned hashes carry distinct identifiers.
    pub proof fn lemma_hash_to_id_injective(self, h1: Seq<u8>, h2: Seq<u8>)
        requires
            forall|i: int, j: int|
                0 <= i < j < self.cids@.len() ==> self.cids@[i].id != self.cids@[j].id,
            forall|i: int, j: int|
                0 <= i < j < self.cids@.len() ==> self.cids@[i].hash@ != self.cids@[j].hash@,
            self.has_hash(h1),
            self.has_hash(h2),
            h1 != h2,
        ensures
            self.hash_to_id(h1) != self.hash_to_id(h2),
    {
        let i = choose|i: int| 0 <= i < self.cids@.len() && self.cids@[i].hash@ == h1;
        let j = choose|j: int| 0 <= j < self.cids@.len() && self.cids@[j].hash@ == h2;
        self.lemma_row_id(i);
        self.lemma_row_id(j);
        assert(i != j);
    }

    /// Distinct interned identifiers carry distinct hashes.
    pub proof fn lemma_id_to_hash_injective(self, x: u64, y: u64)
        requires
            forall|i: int, j: int|
                0 <= i < j < self.cids@.len() ==> self.cids@[i].id != self.cids@[j].id,
            forall|i: int, j: int|
                0 <= i < j < self.cids@.len() ==> self.cids@[i].hash@ != self.cids@[j].hash@,
            self.has_id(x),
            self.has_id(y),
            x != y,
        ensures
            self.id_to_hash(x) != self.id_to_hash(y),
    {
        let i = choose|i: int| 0 <= i < self.cids@.len() && self.cids@[i].id == x;
        let j = choose|j: int| 0 <= j < self.cids@.len() && self.cids@[j].id == y;
        self.lemma_row_hash(i);
        self.lemma_row_hash(j);
        assert(i != j);
    }

    /// Release a transient pin session: delete every pin row with this pin
    /// id. Nothing else changes.
    #[verifier::rlimit(60)]
    pub fn delete_temp_pin(&mut self, pin_id: u64)
        requires
            old(self).wf(),
        ensures
            final(self).wf(),
            final(self).cids@ == old(self).cids@,
            final(self).refs@ == old(self).refs@,
            final(self).blocks@ == old(self).blocks@,
            final(self).aliases@ == old(self).aliases@,
            final(self).stats == old(self).stats,
            final(self).next_id == old(self).next_id,
            forall|q: u64, y: u64|
                #[trigger] final(self).has_pin_row(q, y) <==> old(self).has_pin_row(q, y) && q
                    != pin_id,
            forall|y: u64| #[trigger] final(self).pinned(y) ==> old(self).pinned(y),
    {
        let ghost pred = |p: PinRow| p.pin != pin_id;
        let mut out: Vec<PinRow> = Vec::new();
        let mut k: usize = 0;
        while k < self.pins.len()
            invariant
                0 <= k <= self.pins@.len(),
                out@ == self.pins@.take(k as int).filter(pred),
                pred == (|p: PinRow| p.pin != pin_id),
            decreases self.pins@.len() - k,
        {
            proof {
                assert(self.pins@.take(k + 1).drop_last() =~= self.pins@.take(k as int));
                assert(self.pins@.take(k + 1).last() == self.pins@[k as int]);
                self.pins@.take(k as int).lemma_filter_push(self.pins@[k as int], pred);
                assert(self.pins@.take(k as int).push(self.pins@[k as int]) =~= self.pins@.take(
                    k + 1,
                ));
            }
            let row = self.pins[k];
            if row.pin != pin_id {
                out.push(row);
            }
            k += 1;
        }
        proof {
            assert(self.pins@.take(self.pins@.len() as int) =~= self.pins@);
        }
        let ghost pre = *self;
        self.pins = out;
        proof {
            lemma_filter_distinct_by(pre.pins@, pred, |p: PinRow| p);
            lemma_same_cids_maps(pre, *self);
            lemma_same_storage_stats(pre, *self);
            assert forall|i: int|
                0 <= i < self.pins@.len() implies (#[trigger] self.pins@[i]).pin >= 2
                && self.has_id(self.pins@[i].id) && self.pins@[i].pin != pin_id by {
                assert(pre.pins@.contains(self.pins@[i]) && pred(self.pins@[i]));
                let j = choose|j: int| 0 <= j < pre.pins@.len() && pre.pins@[j] == self.pins@[i];
                assert(pre.pins@[j].pin >= 2 && pre.has_id(pre.pins@[j].id));
            }
            assert(self.wf());
            assert forall|q: u64, y: u64| #[trigger] self.has_pin_row(q, y) == (pre.has_pin_row(
                q,
                y,
            ) && q != pin_id) by {
                if self.has_pin_row(q, y) {
                    let i = choose|i: int|
                        0 <= i < self.pins@.len() && self.pins@[i] == (PinRow { pin: q, id: y });
                    assert(pre.pins@.contains(self.pins@[i]) && pred(self.pins@[i]));
                    let j = choose|j: int|
                        0 <= j < pre.pins@.len() && pre.pins@[j] == self.pins@[i];
                    assert(pre.has_pin_row(q, y));
                }
                if pre.has_pin_row(q, y) && q != pin_id {
                    let j = choose|j: int|
                        0 <= j < pre.pins@.len() && pre.pins@[j] == (PinRow { pin: q, id: y });
                    pre.pins@.lemma_filter_contains(pred, j);
                    assert(self.pins@.contains(pre.pins@[j]));
                    let i = choose|i: int|
                        0 <= i < self.pins@.len() && self.pins@[i] == pre.pins@[j];
                    assert(self.has_pin_row(q, y));
                }
            }
            assert forall|y: u64| #[trigger] self.pinned(y) implies pre.pinned(y) by {
                let i = choose|i: int| 0 <= i < self.pins@.len() && self.pins@[i].id == y;
                assert(pre.pins@.contains(self.pins@[i]));
                let j = choose|j: int| 0 <= j < pre.pins@.len() && pre.pins@[j] == self.pins@[i];
                assert(pre.pins@[j].id == y);
            }
        }
    }

    /// The index of the alias row with this name, if any.
    fn find_alias(&self, name: &Vec<u8>) -> (r: Option<usize>)
        ensures
            match r {
                Some(i) => 0 <= i < self.aliases@.len() && self.aliases@[i as int].name@ == name@,
                None => !self.has_alias(name@),
            },
    {
        let mut i: usize = 0;
        while i < self.aliases.len()
            invariant
                0 <= i <= self.aliases@.len(),
                forall|k: int| 0 <= k < i ==> self.aliases@[k].name@ != name@,
            decreases self.aliases@.len() - i,
        {
            if bytes_eq(&self.aliases[i].name, name) {
                return Some(i);
            }
            i += 1;
        }
        None
    }

    /// Remove the durable alias with this name, if any. Nothing else
    /// changes.
    #[verifier::rlimit(60)]
    pub fn unalias(&mut self, name: &Vec<u8>)
        requires
            old(self).wf(),
        ensures
            final(self).wf(),
            final(self).cids@ == old(self).cids@,
            final(self).refs@ == old(self).refs@,
            final(self).blocks@ == old(self).blocks@,
            final(self).pins@ == old(self).pins@,
            final(self).stats == old(self).stats,
            final(self).next_id == old(self).next_id,
            forall|n2: Seq<u8>, y: u64|
                #[trigger] final(self).is_alias(n2, y) <==> old(self).is_alias(n2, y) && n2
                    != name@,
            !final(self).has_alias(name@),
    {
        let found = self.find_alias(name);
        match found {
            None => {
                proof {
                    assert forall|n2: Seq<u8>, y: u64| #[trigger] self.is_alias(n2, y) implies n2
                        != name@ by {
                        if n2 == name@ {
                            let i = choose|i: int|
                                0 <= i < self.aliases@.len() && self.aliases@[i].name@ == n2
                                    && self.aliases@[i].id == y;
                            assert(self.has_alias(name@));
                        }
                    }
                }
            },
            Some(i) => {
                let ghost pre = *self;
                self.aliases.remove(i);
                proof {
                    pre.aliases@.remove_ensures(i as int);
                    lemma_same_cids_maps(pre, *self);
                    lemma_same_storage_stats(pre, *self);
                    assert forall|a: int, b: int|
                        0 <= a < b < self.aliases@.len() implies self.aliases@[a].name@
                        != self.aliases@[b].name@ by {
                        let a0: int = if a < i {
                            a
                        } else {
                            a + 1
                        };
                        let b0: int = if b < i {
                            b
                        } else {
                            b + 1
                        };
                        assert(self.aliases@[a] == pre.aliases@[a0]);
                        assert(self.aliases@[b] == pre.aliases@[b0]);
                    }
                    assert forall|a: int|
                        0 <= a < self.aliases@.len() implies self.has_id(
                        #[trigger] self.aliases@[a].id,
                    ) by {
                        let a0: int = if a < i {
                            a
                        } else {
                            a + 1
                        };
                        assert(self.aliases@[a] == pre.aliases@[a0]);
                    }
                    assert(self.wf());
                    assert forall|n2: Seq<u8>, y: u64| #[trigger] self.is_alias(n2, y) == (
                    pre.is_alias(n2, y) && n2 != name@) by {
                        if self.is_alias(n2, y) {
                            let a = choose|a: int|
                                0 <= a < self.aliases@.len() && self.aliases@[a].name@ == n2
                                    && self.aliases@[a].id == y;
                            let a0: int = if a < i {
                                a
                            } else {
                                a + 1
                            };
                            assert(self.aliases@[a] == pre.aliases@[a0]);
                            assert(pre.is_alias(n2, y));
                            assert(a0 != i);
                            assert(n2 != name@);
                        }
                        if pre.is_alias(n2, y) && n2 != name@ {
                            let a0 = choose|a0: int|
                                0 <= a0 < pre.aliases@.len() && pre.aliases@[a0].name@ == n2
                                    && pre.aliases@[a0].id == y;
                            assert(a0 != i);
                            let a: int = if a0 < i {
                                a0
                            } else {
                                a0 - 1
                            };
                            assert(self.aliases@[a] == pre.aliases@[a0]);
                            assert(self.is_alias(n2, y));
                        }
                    }
                    assert(!self.has_alias(name@)) by {
                        if self.has_alias(name@) {
                            let a = choose|a: int|
                                0 <= a < self.aliases@.len() && self.aliases@[a].name@ == name@;
                            assert(self.is_alias(name@, self.aliases@[a].id));
                        }
                    }
                }
            },
        }
    }

    /// Create or replace the durable alias `name`, pointing it at the
    /// identifier interned for `hash` (interning it on first sight).
    #[verifier::rlimit(60)]
    pub fn alias(&mut self, name: &Vec<u8>, hash: &Vec<u8>)
        requires
            old(self).wf(),
            old(self).next_id < u64::MAX,
        ensures
            final(self).wf(),
            final(self).refs@ == old(self).refs@,
            final(self).blocks@ == old(self).blocks@,
            final(self).pins@ == old(self).pins@,
            final(self).stats == old(self).stats,
            old(self).next_id <= final(self).next_id <= old(self).next_id + 1,
            final(self).has_hash(hash@),
            forall|h2: Seq<u8>|
                #[trigger] final(self).has_hash(h2) <==> old(self).has_hash(h2) || h2 == hash@,
            forall|h2: Seq<u8>|
                old(self).has_hash(h2) ==> final(self).hash_to_id(h2) == old(self).hash_to_id(h2),
            forall|x: u64| old(self).has_id(x) ==> final(self).has_id(x),
            forall|n2: Seq<u8>, y: u64|
                #[trigger] final(self).is_alias(n2, y) <==> if n2 == name@ {
                    y == final(self).hash_to_id(hash@)
                } else {
                    old(self).is_alias(n2, y)
                },
            final(self).is_alias(name@, final(self).hash_to_id(hash@)),
    {
        let id = self.get_or_create_id(hash);
        let ghost mid = *self;
        self.unalias(name);
        let ghost mid2 = *self;
        self.aliases.push(AliasRow { name: name.clone(), id });
        proof {
            lemma_same_cids_maps(mid, mid2);
            lemma_same_cids_maps(mid2, *self);
            lemma_same_storage_stats(mid2, *self);
            assert forall|h2: Seq<u8>| #[trigger] self.has_hash(h2) == mid.has_hash(h2) by {
                assert(self.has_hash(h2) == mid2.has_hash(h2));
            }
            assert forall|h2: Seq<u8>| mid.has_hash(h2) implies #[trigger] self.hash_to_id(h2)
                == mid.hash_to_id(h2) by {
                assert(mid2.has_hash(h2));
            }
            assert forall|x: u64| mid.has_id(x) implies #[trigger] self.has_id(x) by {
                assert(mid2.has_id(x));
            }
            assert(self.aliases@.last().name@ == name@ && self.aliases@.last().id == id);
            assert forall|a: int, b: int|
                0 <= a < b < self.aliases@.len() implies self.aliases@[a].name@
                != self.aliases@[b].name@ by {
                if b == self.aliases@.len() - 1 {
                    assert(mid2.aliases@[a] == self.aliases@[a]);
                    assert(mid2.is_alias(self.aliases@[a].name@, self.aliases@[a].id));
                }
            }
            assert forall|a: int|
                0 <= a < self.aliases@.len() implies self.has_id(
                #[trigger] self.aliases@[a].id,
            ) by {
                if a < self.aliases@.len() - 1 {
                    assert(mid2.aliases@[a] == self.aliases@[a]);
                    assert(mid2.has_id(mid2.aliases@[a].id));
                }
            }
            assert(self.wf());
            assert(self.is_alias(name@, id));
            assert forall|n2: Seq<u8>, y: u64| #[trigger] self.is_alias(n2, y) == (if n2 == name@ {
                y == id
            } else {
                mid2.is_alias(n2, y)
            }) by {
                if self.is_alias(n2, y) {
                    let a = choose|a: int|
                        0 <= a < self.aliases@.len() && self.aliases@[a].name@ == n2
                            && self.aliases@[a].id == y;
                    if a < self.aliases@.len() - 1 {
                        assert(mid2.aliases@[a] == self.aliases@[a]);
                        assert(mid2.is_alias(n2, y));
                        assert(!mid2.has_alias(name@));
                        if n2 == name@ {
                            assert(mid2.has_alias(name@));
                        }
                    }
                }
                if n2 == name@ && y == id {
                    assert(self.is_alias(n2, y));
                }
                if n2 != name@ && mid2.is_alias(n2, y) {
                    let a = choose|a: int|
                        0 <= a < mid2.aliases@.len() && mid2.aliases@[a].name@ == n2
                            && mid2.aliases@[a].id == y;
                    assert(self.aliases@[a] == mid2.aliases@[a]);
                    assert(self.is_alias(n2, y));
                }
            }
        }
    }

    /// Look up a block by hash: the interned identifier and the stored
    /// payload, if both exist.
    pub fn get_block(&self, hash: &Vec<u8>) -> (r: Option<(u64, Vec<u8>)>)
        requires
            self.wf(),
        ensures
            match r {
                Some(p) => self.lookup_block(hash@) == Some((p.0, p.1@)),
                None => self.lookup_block(hash@) is None,
            },
    {
        let found = self.get_id(hash);
        match found {
            None => None,
            Some(id) => {
                let mut i: usize = 0;
                while i < self.blocks.len()
                    invariant
                        self.wf(),
                        self.has_hash(hash@),
                        id == self.hash_to_id(hash@),
                        0 <= i <= self.blocks@.len(),
                        forall|k: int| 0 <= k < i ==> self.blocks@[k].id != id,
                    decreases self.blocks@.len() - i,
                {
                    if self.blocks[i].id == id {
                        proof {
                            self.lemma_block_row(i as int);
                            assert(self.has_block_hash(hash@));
                            assert(self.lookup_block(hash@) == Some((id, self.payload_of(id))));
                        }
                        let pl = self.blocks[i].payload.clone();
                        proof {
                            assert(pl@ == self.blocks@[i as int].payload@);
                        }
                        return Some((id, pl));
                    }
                    i += 1;
                }
                None
            },
        }
    }

    /// Whether a payload is stored for this hash.
    pub fn has_block(&self, hash: &Vec<u8>) -> (r: bool)
        requires
            self.wf(),
        ensures
            r == self.has_block_hash(hash@),
    {
        let found = self.get_id(hash);
        match found {
            None => false,
            Some(id) => self.has_block_for_id(id),
        }
    }

    /// Whether this hash is interned, with or without a payload.
    pub fn has_cid(&self, hash: &Vec<u8>) -> (r: bool)
        requires
            self.wf(),
        ensures
            r == self.has_hash(hash@),
    {
        self.get_id(hash).is_some()
    }

    /// The stats summary, read in constant time from the mirror row. Under
    /// the store invariant it equals the ground-truth aggregate.
    pub fn get_store_stats(&self) -> (r: StoreStats)
        requires
            self.wf(),
        ensures
            r == self.stats,
            r.count == live_count(self.id_set(), self.blocks@),
            r.size == live_size(self.id_set(), self.blocks@),
    {
        self.stats
    }

    /// The stats summary recomputed from the ground truth: a walk over the
    /// block rows counting those whose identifier is interned.
    pub fn compute_store_stats(&self) -> (r: StoreStats)
        requires
            self.wf(),
        ensures
            r.count == live_count(self.id_set(), self.blocks@),
            r.size == live_size(self.id_set(), self.blocks@),
            r == self.stats,
    {
        let mut count: u64 = 0;
        let mut size: u64 = 0;
        let mut k: usize = 0;
        while k < self.blocks.len()
            invariant
                self.wf(),
                0 <= k <= self.blocks@.len(),
                count == live_count(self.id_set(), self.blocks@.take(k as int)),
                size == live_size(self.id_set(), self.blocks@.take(k as int)),
            decreases self.blocks@.len() - k,
        {
            proof {
                lemma_live_take_le(self.id_set(), self.blocks@, k + 1);
                assert(self.blocks@.take(k + 1).drop_last() =~= self.blocks@.take(k as int));
                assert(self.blocks@.take(k + 1).last() == self.blocks@[k as int]);
            }
            let present = self.has_id_present(self.blocks[k].id);
            if present {
                count = count + 1;
                size = size + self.blocks[k].payload.len() as u64;
            }
            k += 1;
        }
        proof {
            assert(self.blocks@.take(self.blocks@.len() as int) =~= self.blocks@);
        }
        StoreStats { count, size }
    }

    /// A fresh, empty store.
    pub fn new() -> (s: Store)
        ensures
            s.wf(),
            s.cids@.len() == 0,
            s.refs@.len() == 0,
            s.blocks@.len() == 0,
            s.aliases@.len() == 0,
            s.pins@.len() == 0,
            s.stats == (StoreStats { count: 0, size: 0 }),
            s.next_id == 1,
    {
        Store {
            cids: Vec::new(),
            refs: Vec::new(),
            blocks: Vec::new(),
            aliases: Vec::new(),
            pins: Vec::new(),
            stats: StoreStats { count: 0, size: 0 },
            next_id: 1,
        }
    }
}

/// The live aggregates over a prefix of the block rows are bounded by the
/// aggregates over all of them.
pub proof fn lemma_live_take_le(ids: Set<u64>, bs: Seq<BlockRow>, k: int)
    requires
        0 <= k <= bs.len(),
    ensures
        live_count(ids, bs.take(k)) <= live_count(ids, bs),
        live_size(ids, bs.take(k)) <= live_size(ids, bs),
    decreases bs.len() - k,
{
    if k == bs.len() {
        assert(bs.take(k) =~= bs);
    } else {
        lemma_live_take_le(ids, bs, k + 1);
        assert(bs.take(k + 1).drop_last() =~= bs.take(k));
    }
}

} // verus!
