//! Incremental garbage collection and the orphan sweep: bounded-time
//! eviction of identifiers that are unreachable from every durable alias
//! and transient pin, cooperating with a caller-supplied eviction policy,
//! plus crash recovery at reopen.

use vstd::prelude::*;

use crate::rows::BlockRow;
use crate::rows::SizeTargets;
use crate::store::Store;
use crate::store::contains_u64;
use crate::store::lemma_live_id_irrelevant;
use crate::store::lemma_live_push;
use crate::store::lemma_same_cids_maps;
use crate::store::lemma_same_refs_edges;
use crate::store::live_count;
use crate::store::live_size;
use crate::reach::lemma_push_contains;
use crate::timing::clock_elapsed;
use crate::timing::clock_now;
use crate::timing::duration_micros;

verus! {

/// The eviction policy: the garbage collector hands it the candidate list
/// to order (front is evicted first) and tells it afterwards which prefix
/// was actually evicted. Sorting must keep the collection of identifiers
/// intact.
pub trait CacheTracker {
    /// Order candidate identifiers in place, front first.
    fn sort_ids(&mut self, ids: &mut Vec<u64>)
        ensures
            final(ids)@.to_multiset() == old(ids)@.to_multiset(),
    ;

    /// Note that these identifiers have been evicted.
    fn delete_ids(&mut self, ids: &Vec<u64>);
}

/// The null eviction policy: candidates are evicted in the order the
/// identifier table yields them.
pub struct NoopCacheTracker {}

impl CacheTracker for NoopCacheTracker {
    fn sort_ids(&mut self, ids: &mut Vec<u64>) {
    }

    fn delete_ids(&mut self, ids: &Vec<u64>) {
    }
}

/// A permutation of a duplicate-free sequence is duplicate-free, has the
/// same length and the same members.
pub proof fn lemma_multiset_perm(a: Seq<u64>, b: Seq<u64>)
    requires
        a.to_multiset() == b.to_multiset(),
        a.no_duplicates(),
    ensures
        b.no_duplicates(),
        a.len() == b.len(),
        forall|x: u64| a.contains(x) == b.contains(x),
{
    a.to_multiset_ensures();
    b.to_multiset_ensures();
    a.lemma_multiset_has_no_duplicates();
    assert forall|x: u64| b.to_multiset().contains(x) implies b.to_multiset().count(x) == 1 by {
        assert(a.to_multiset().contains(x));
    }
    b.lemma_multiset_has_no_duplicates_conv();
    assert forall|x: u64| a.contains(x) == b.contains(x) by {
        assert(a.contains(x) <==> a.to_multiset().count(x) > 0);
        assert(b.contains(x) <==> b.to_multiset().count(x) > 0);
    }
}

/// Removing one block row takes away exactly its contribution to the live
/// aggregates.
pub proof fn lemma_live_remove(ids: Set<u64>, bs: Seq<BlockRow>, i: int)
    requires
        0 <= i < bs.len(),
    ensures
        live_count(ids, bs) == live_count(ids, bs.remove(i)) + if ids.contains(bs[i].id) {
            1nat
        } else {
            0nat
        },
        live_size(ids, bs) == live_size(ids, bs.remove(i)) + if ids.contains(bs[i].id) {
            bs[i].payload@.len()
        } else {
            0nat
        },
    decreases bs.len(),
{
    if i == bs.len() - 1 {
        assert(bs.remove(i) =~= bs.drop_last());
    } else {
        lemma_live_remove(ids, bs.drop_last(), i);
        assert(bs.drop_last()[i] == bs[i]);
        assert(bs.remove(i).drop_last() =~= bs.drop_last().remove(i));
        assert(bs.remove(i).last() == bs.last());
    }
}

impl Store {
    /// A durably aliased or transiently pinned identifier is reachable
    /// from the roots: it reaches itself.
    pub proof fn lemma_seed_is_reachable(self, x: u64)
        requires
            self.seed(x),
        ensures
            self.pinned_reachable(x),
    {
        self.lemma_reach_refl(false, x);
    }

    /// Delete one identifier that no alias and no pin holds: its row, its
    /// incoming and outgoing link edges, and its stored payload all go,
    /// and the stats summary loses the payload's contribution.
    #[verifier::rlimit(100)]
    #[verifier::spinoff_prover]
    fn delete_unreachable_id(&mut self, id: u64)
        requires
            old(self).wf(),
            old(self).has_id(id),
            !old(self).aliased(id),
            !old(self).pinned(id),
        ensures
            final(self).wf(),
            final(self).aliases@ == old(self).aliases@,
            final(self).pins@ == old(self).pins@,
            final(self).next_id == old(self).next_id,
            final(self).cids@.len() == old(self).cids@.len() - 1,
            forall|x: u64| #[trigger] final(self).has_id(x) <==> old(self).has_id(x) && x != id,
            forall|b: u64|
                #[trigger] final(self).has_block_id(b) <==> old(self).has_block_id(b) && b != id,
            forall|b: u64|
                final(self).has_block_id(b) ==> final(self).payload_of(b) == old(self).payload_of(
                    b,
                ),
            forall|h: Seq<u8>| #[trigger] final(self).has_hash(h) ==> old(self).has_hash(h),
            forall|h: Seq<u8>|
                old(self).has_hash(h) && old(self).hash_to_id(h) != id ==> final(self).has_hash(h)
                    && final(self).hash_to_id(h) == old(self).hash_to_id(h),
            forall|p: u64, c: u64|
                #[trigger] final(self).has_edge(p, c) <==> old(self).has_edge(p, c) && p != id && c
                    != id,
            old(self).stats.count == final(self).stats.count + (if old(self).has_block_id(id) {
                1nat
            } else {
                0nat
            }),
            old(self).stats.size == final(self).stats.size + (if old(self).has_block_id(id) {
                old(self).payload_of(id).len()
            } else {
                0nat
            }),
    {
        let ghost pre = *old(self);
        // drop the link edges touching the identifier
        let mut kept: Vec<crate::rows::RefRow> = Vec::new();
        let mut e: usize = 0;
        while e < self.refs.len()
            invariant
                self.wf(),
                0 <= e <= self.refs@.len(),
                forall|j: int|
                    0 <= j < kept@.len() ==> (#[trigger] kept@[j]).parent != id && kept@[j].child
                        != id,
                forall|j: int| 0 <= j < kept@.len() ==> self.refs@.take(e as int).contains(
                    #[trigger] kept@[j],
                ),
                forall|f: int|
                    0 <= f < e && (#[trigger] self.refs@[f]).parent != id && self.refs@[f].child
                        != id ==> kept@.contains(self.refs@[f]),
                forall|j1: int, j2: int| 0 <= j1 < j2 < kept@.len() ==> kept@[j1] != kept@[j2],
            decreases self.refs@.len() - e,
        {
            let row = self.refs[e];
            let ghost kpre = kept@;
            if row.parent != id && row.child != id {
                kept.push(row);
                proof {
                    assert(kept@[kept@.len() - 1] == self.refs@[e as int]);
                    assert forall|f: int|
                        0 <= f < e + 1 && (#[trigger] self.refs@[f]).parent != id
                            && self.refs@[f].child != id implies kept@.contains(self.refs@[f]) by {
                        if f < e {
                            lemma_push_contains(kpre, row, self.refs@[f]);
                        } else {
                            assert(kept@[kept@.len() - 1] == self.refs@[f]);
                        }
                    }
                    assert forall|j1: int, j2: int|
                        0 <= j1 < j2 < kept@.len() implies kept@[j1] != kept@[j2] by {
                        if j2 == kept@.len() - 1 {
                            let f1 = choose|f1: int|
                                0 <= f1 < self.refs@.take(e as int).len()
                                    && self.refs@.take(e as int)[f1] == kept@[j1];
                            assert(self.refs@[f1] == kept@[j1]);
                            assert(self.refs@[f1] != self.refs@[e as int]);
                        }
                    }
                    assert forall|j: int| 0 <= j < kept@.len() implies self.refs@.take(
                        e + 1,
                    ).contains(#[trigger] kept@[j]) by {
                        if j < kept@.len() - 1 {
                            let f1 = choose|f1: int|
                                0 <= f1 < self.refs@.take(e as int).len()
                                    && self.refs@.take(e as int)[f1] == kept@[j];
                            assert(self.refs@.take(e + 1)[f1] == kept@[j]);
                        } else {
                            assert(self.refs@.take(e + 1)[e as int] == kept@[j]);
                        }
                    }
                }
            } else {
                proof {
                    assert forall|j: int| 0 <= j < kept@.len() implies self.refs@.take(
                        e + 1,
                    ).contains(#[trigger] kept@[j]) by {
                        let f1 = choose|f1: int|
                            0 <= f1 < self.refs@.take(e as int).len()
                                && self.refs@.take(e as int)[f1] == kept@[j];
                        assert(self.refs@.take(e + 1)[f1] == kept@[j]);
                    }
                }
            }
            e += 1;
        }
        let ghost mid0 = *self;
        proof {
            assert(mid0.refs@.take(mid0.refs@.len() as int) =~= mid0.refs@);
        }
        self.refs = kept;
        proof {
            lemma_same_cids_maps(mid0, *self);
            assert forall|x: u64| self.id_set().contains(x) == mid0.id_set().contains(x) by {
                assert(self.cids@ == mid0.cids@);
            }
            assert(self.id_set() =~= mid0.id_set());
            assert forall|i: int|
                0 <= i < self.refs@.len() implies self.has_id(#[trigger] self.refs@[i].parent)
                && self.has_id(self.refs@[i].child) by {
                assert(mid0.refs@.contains(self.refs@[i]));
                let f = choose|f: int| 0 <= f < mid0.refs@.len() && mid0.refs@[f] == self.refs@[i];
                assert(mid0.has_id(self.refs@[i].parent) && mid0.has_id(self.refs@[i].child));
            }
            assert(self.stats_ok());
            assert(self.wf());
            assert forall|p: u64, c: u64| #[trigger] self.has_edge(p, c) == (mid0.has_edge(p, c)
                && p != id && c != id) by {
                if self.has_edge(p, c) {
                    let i = choose|i: int|
                        0 <= i < self.refs@.len() && self.refs@[i].parent == p && self.refs@[i].child
                            == c;
                    assert(mid0.refs@.contains(self.refs@[i]));
                    let f = choose|f: int|
                        0 <= f < mid0.refs@.len() && mid0.refs@[f] == self.refs@[i];
                    assert(mid0.has_edge(p, c));
                }
                if mid0.has_edge(p, c) && p != id && c != id {
                    let f = choose|f: int|
                        0 <= f < mid0.refs@.len() && mid0.refs@[f].parent == p
                            && mid0.refs@[f].child == c;
                    assert(self.refs@.contains(mid0.refs@[f]));
                    let i = choose|i: int|
                        0 <= i < self.refs@.len() && self.refs@[i] == mid0.refs@[f];
                    assert(self.has_edge(p, c));
                }
            }
        }
        // drop the stored payload, giving its contribution back to stats
        let ghost mid1 = *self;
        let mut bi: usize = 0;
        let mut bfound = false;
        let mut blen: u64 = 0;
        while !bfound && bi < self.blocks.len()
            invariant
                self.wf(),
                *self == mid1,
                !bfound ==> forall|j: int| 0 <= j < bi ==> self.blocks@[j].id != id,
                bfound ==> 0 <= bi < self.blocks@.len() && self.blocks@[bi as int].id == id && blen
                    == self.blocks@[bi as int].payload@.len(),
                !bfound ==> 0 <= bi <= self.blocks@.len(),
            decreases self.blocks@.len() - bi + (if bfound {
                0int
            } else {
                1int
            }),
        {
            if self.blocks[bi].id == id {
                bfound = true;
                blen = self.blocks[bi].payload.len() as u64;
            } else {
                bi += 1;
            }
        }
        proof {
            if bfound {
                mid1.lemma_block_row(bi as int);
                assert(mid1.has_block_id(id) && mid1.payload_of(id) == mid1.blocks@[bi as int].payload@);
            } else {
                assert(!mid1.has_block_id(id));
            }
        }
        if bfound {
            proof {
                lemma_live_remove(mid1.id_set(), mid1.blocks@, bi as int);
                assert(mid1.id_set().contains(id));
            }
            self.blocks.remove(bi);
            self.stats =
            crate::rows::StoreStats { count: self.stats.count - 1, size: self.stats.size - blen };
            proof {
                mid1.blocks@.remove_ensures(bi as int);
                lemma_same_cids_maps(mid1, *self);
                lemma_same_refs_edges(mid1, *self);
                assert forall|x: u64| self.id_set().contains(x) == mid1.id_set().contains(x) by {
                    assert(self.cids@ == mid1.cids@);
                }
                assert(self.id_set() =~= mid1.id_set());
                assert forall|a: int, b: int|
                    0 <= a < b < self.blocks@.len() implies self.blocks@[a].id
                    != self.blocks@[b].id by {
                    let a0: int = if a < bi {
                        a
                    } else {
                        a + 1
                    };
                    let b0: int = if b < bi {
                        b
                    } else {
                        b + 1
                    };
                    assert(self.blocks@[a] == mid1.blocks@[a0]);
                    assert(self.blocks@[b] == mid1.blocks@[b0]);
                }
                assert(self.stats_ok());
                assert(self.wf());
            }
        }
        let ghost mid2 = *self;
        proof {
            assert forall|b: u64| #[trigger] mid2.has_block_id(b) == (mid1.has_block_id(b) && b
                != id) by {
                if mid2.has_block_id(b) {
                    let j = choose|j: int|
                        0 <= j < mid2.blocks@.len() && mid2.blocks@[j].id == b;
                    if bfound {
                        let j0: int = if j < bi {
                            j
                        } else {
                            j + 1
                        };
                        assert(mid2.blocks@[j] == mid1.blocks@[j0]);
                        assert(mid1.has_block_id(b));
                        assert(j0 != bi);
                    }
                }
                if mid1.has_block_id(b) && b != id {
                    let j0 = choose|j0: int|
                        0 <= j0 < mid1.blocks@.len() && mid1.blocks@[j0].id == b;
                    if bfound {
                        assert(j0 != bi);
                        let j: int = if j0 < bi {
                            j0
                        } else {
                            j0 - 1
                        };
                        assert(mid2.blocks@[j] == mid1.blocks@[j0]);
                        assert(mid2.has_block_id(b));
                    }
                }
            }
            assert forall|b: u64| mid2.has_block_id(b) implies mid2.payload_of(b)
                == mid1.payload_of(b) by {
                let j = choose|j: int| 0 <= j < mid2.blocks@.len() && mid2.blocks@[j].id == b;
                mid2.lemma_block_row(j);
                if bfound {
                    let j0: int = if j < bi {
                        j
                    } else {
                        j + 1
                    };
                    assert(mid2.blocks@[j] == mid1.blocks@[j0]);
                    mid1.lemma_block_row(j0);
                } else {
                    mid1.lemma_block_row(j);
                }
            }
        }
        // drop the identifier row itself
        let mut ci: usize = 0;
        let mut cfound = false;
        while !cfound && ci < self.cids.len()
            invariant
                self.wf(),
                *self == mid2,
                self.has_id(id),
                !cfound ==> 0 <= ci <= self.cids@.len(),
                !cfound ==> forall|j: int| 0 <= j < ci ==> self.cids@[j].id != id,
                cfound ==> 0 <= ci < self.cids@.len() && self.cids@[ci as int].id == id,
            decreases self.cids@.len() - ci + (if cfound {
                0int
            } else {
                1int
            }),
        {
            if self.cids[ci].id == id {
                cfound = true;
            } else {
                ci += 1;
            }
        }
        proof {
            assert(cfound) by {
                if !cfound {
                    assert(!self.has_id(id));
                }
            }
            assert(ci < self.cids@.len() && self.cids@[ci as int].id == id);
        }
        self.cids.remove(ci);
        proof {
            mid2.cids@.remove_ensures(ci as int);
            lemma_same_refs_edges(mid2, *self);
            assert forall|x: u64| #[trigger] self.has_id(x) == (mid2.has_id(x) && x != id) by {
                if self.has_id(x) {
                    let j = choose|j: int| 0 <= j < self.cids@.len() && self.cids@[j].id == x;
                    let j0: int = if j < ci {
                        j
                    } else {
                        j + 1
                    };
                    assert(self.cids@[j] == mid2.cids@[j0]);
                    assert(mid2.has_id(x));
                    assert(j0 != ci);
                }
                if mid2.has_id(x) && x != id {
                    let j0 = choose|j0: int| 0 <= j0 < mid2.cids@.len() && mid2.cids@[j0].id == x;
                    assert(j0 != ci);
                    let j: int = if j0 < ci {
                        j0
                    } else {
                        j0 - 1
                    };
                    assert(self.cids@[j] == mid2.cids@[j0]);
                }
            }
            assert forall|h: Seq<u8>| #[trigger] self.has_hash(h) implies mid2.has_hash(h) by {
                let j = choose|j: int| 0 <= j < self.cids@.len() && self.cids@[j].hash@ == h;
                let j0: int = if j < ci {
                    j
                } else {
                    j + 1
                };
                assert(self.cids@[j] == mid2.cids@[j0]);
            }
            assert forall|a: int, b: int|
                0 <= a < b < self.cids@.len() implies self.cids@[a].id != self.cids@[b].id
                && self.cids@[a].hash@ != self.cids@[b].hash@ by {
                let a0: int = if a < ci {
                    a
                } else {
                    a + 1
                };
                let b0: int = if b < ci {
                    b
                } else {
                    b + 1
                };
                assert(self.cids@[a] == mid2.cids@[a0]);
                assert(self.cids@[b] == mid2.cids@[b0]);
            }
            assert forall|h: Seq<u8>|
                mid2.has_hash(h) && mid2.hash_to_id(h) != id implies self.has_hash(h)
                && self.hash_to_id(h) == mid2.hash_to_id(h) by {
                let j0 = choose|j0: int| 0 <= j0 < mid2.cids@.len() && mid2.cids@[j0].hash@ == h;
                mid2.lemma_row_id(j0);
                assert(mid2.cids@[j0].id != id);
                assert(j0 != ci);
                let j: int = if j0 < ci {
                    j0
                } else {
                    j0 - 1
                };
                assert(self.cids@[j] == mid2.cids@[j0]);
                self.lemma_row_id(j);
            }
            // edges never touch the removed identifier, so their endpoints survive
            assert forall|i: int|
                0 <= i < self.refs@.len() implies self.has_id(#[trigger] self.refs@[i].parent)
                && self.has_id(self.refs@[i].child) by {
                assert(mid2.has_edge(self.refs@[i].parent, self.refs@[i].child));
                assert(self.refs@[i].parent != id && self.refs@[i].child != id);
                assert(mid2.has_id(self.refs@[i].parent) && mid2.has_id(self.refs@[i].child));
            }
            // aliases and pins never held this identifier
            assert forall|i: int|
                0 <= i < self.aliases@.len() implies self.has_id(
                #[trigger] self.aliases@[i].id,
            ) by {
                assert(mid2.has_id(self.aliases@[i].id));
                if self.aliases@[i].id == id {
                    assert(pre.aliased(id));
                }
            }
            assert forall|i: int|
                0 <= i < self.pins@.len() implies self.has_id((#[trigger] self.pins@[i]).id) by {
                assert(mid2.has_id(self.pins@[i].id));
                if self.pins@[i].id == id {
                    assert(pre.pinned(id));
                }
            }
            // stats: the removed identifier has no block row left
            assert(self.id_set() =~= mid2.id_set().remove(id));
            assert forall|j: int| 0 <= j < self.blocks@.len() implies self.blocks@[j].id != id by {
                assert(mid2.has_block_id(self.blocks@[j].id) == (mid1.has_block_id(
                    self.blocks@[j].id,
                ) && self.blocks@[j].id != id));
                mid2.lemma_block_row(j);
            }
            lemma_live_id_irrelevant(mid2.id_set(), self.blocks@, id);
            assert(self.stats_ok());
            assert(self.wf());
            // block rows were untouched by the edge filter and the
            // identifier removal
            crate::store::lemma_same_blocks(mid1, pre);
            crate::store::lemma_same_blocks(*self, mid2);
        }
    }

    /// The eviction candidates: every interned identifier that is not
    /// reachable from any durable alias or transient pin, each once.
    #[verifier::rlimit(100)]
    #[verifier::spinoff_prover]
    fn gc_candidates(&self) -> (r: Vec<u64>)
        requires
            self.wf(),
        ensures
            r@.no_duplicates(),
            forall|j: int|
                0 <= j < r@.len() ==> self.has_id(#[trigger] r@[j]) && !self.pinned_reachable(
                    r@[j],
                ),
            forall|x: u64|
                self.has_id(x) && !(#[trigger] self.pinned_reachable(x)) ==> r@.contains(x),
    {
        let mut seeds: Vec<u64> = Vec::new();
        let mut a: usize = 0;
        while a < self.aliases.len()
            invariant
                self.wf(),
                0 <= a <= self.aliases@.len(),
                forall|k: int|
                    0 <= k < seeds@.len() ==> self.has_id(#[trigger] seeds@[k]) && self.seed(
                        seeds@[k],
                    ),
                forall|i: int|
                    0 <= i < a ==> seeds@.contains(#[trigger] self.aliases@[i].id),
            decreases self.aliases@.len() - a,
        {
            let ghost spre = seeds@;
            seeds.push(self.aliases[a].id);
            proof {
                assert(seeds@[seeds@.len() - 1] == self.aliases@[a as int].id);
                assert(self.aliased(self.aliases@[a as int].id));
                assert forall|i: int| 0 <= i < a + 1 implies seeds@.contains(
                    #[trigger] self.aliases@[i].id,
                ) by {
                    if i < a {
                        lemma_push_contains(spre, self.aliases@[a as int].id, self.aliases@[i].id);
                    } else {
                        assert(seeds@[seeds@.len() - 1] == self.aliases@[i].id);
                    }
                }
            }
            a += 1;
        }
        let mut b: usize = 0;
        while b < self.pins.len()
            invariant
                self.wf(),
                0 <= b <= self.pins@.len(),
                forall|k: int|
                    0 <= k < seeds@.len() ==> self.has_id(#[trigger] seeds@[k]) && self.seed(
                        seeds@[k],
                    ),
                forall|i: int|
                    0 <= i < self.aliases@.len() ==> seeds@.contains(#[trigger] self.aliases@[i].id),
                forall|i: int| 0 <= i < b ==> seeds@.contains((#[trigger] self.pins@[i]).id),
            decreases self.pins@.len() - b,
        {
            let ghost spre = seeds@;
            seeds.push(self.pins[b].id);
            proof {
                assert(seeds@[seeds@.len() - 1] == self.pins@[b as int].id);
                assert(self.pinned(self.pins@[b as int].id));
                assert forall|i: int| 0 <= i < self.aliases@.len() implies seeds@.contains(
                    #[trigger] self.aliases@[i].id,
                ) by {
                    lemma_push_contains(spre, self.pins@[b as int].id, self.aliases@[i].id);
                }
                assert forall|i: int| 0 <= i < b + 1 implies seeds@.contains(
                    (#[trigger] self.pins@[i]).id,
                ) by {
                    if i < b {
                        lemma_push_contains(spre, self.pins@[b as int].id, self.pins@[i].id);
                    } else {
                        assert(seeds@[seeds@.len() - 1] == self.pins@[i].id);
                    }
                }
            }
            b += 1;
        }
        let reach = self.closure_from(&seeds, false);
        proof {
            assert forall|x: u64| #[trigger] self.pinned_reachable(x) == self.seed_reaches(
                false,
                seeds@,
                x,
            ) by {
                if self.pinned_reachable(x) {
                    let sd = choose|sd: u64| self.seed(sd) && self.can_reach(sd, x);
                    if self.aliased(sd) {
                        let i = choose|i: int|
                            0 <= i < self.aliases@.len() && self.aliases@[i].id == sd;
                        assert(seeds@.contains(sd));
                    } else {
                        let i = choose|i: int| 0 <= i < self.pins@.len() && self.pins@[i].id == sd;
                        assert(seeds@.contains(sd));
                    }
                    let k = choose|k: int| 0 <= k < seeds@.len() && seeds@[k] == sd;
                    assert(self.reaches(false, seeds@[k], x));
                }
                if self.seed_reaches(false, seeds@, x) {
                    let k = choose|k: int|
                        0 <= k < seeds@.len() && self.reaches(false, seeds@[k], x);
                    assert(self.seed(seeds@[k]) && self.can_reach(seeds@[k], x));
                }
            }
        }
        let mut cand: Vec<u64> = Vec::new();
        let mut c: usize = 0;
        while c < self.cids.len()
            invariant
                self.wf(),
                0 <= c <= self.cids@.len(),
                forall|x: u64| #[trigger] reach@.contains(x) ==> self.pinned_reachable(x),
                forall|x: u64| #[trigger] self.pinned_reachable(x) ==> reach@.contains(x),
                cand@.no_duplicates(),
                forall|j: int|
                    0 <= j < cand@.len() ==> self.has_id(#[trigger] cand@[j])
                        && !self.pinned_reachable(cand@[j]),
                forall|i: int|
                    0 <= i < c ==> self.pinned_reachable(#[trigger] self.cids@[i].id)
                        || cand@.contains(self.cids@[i].id),
            decreases self.cids@.len() - c,
        {
            let x = self.cids[c].id;
            let ghost cpre = cand@;
            proof {
                self.lemma_row_hash(c as int);
            }
            if !contains_u64(&reach, x) && !contains_u64(&cand, x) {
                cand.push(x);
                proof {
                    assert(cand@[cand@.len() - 1] == x);
                    assert forall|i: int|
                        0 <= i < c + 1 implies self.pinned_reachable(
                        #[trigger] self.cids@[i].id,
                    ) || cand@.contains(self.cids@[i].id) by {
                        if i < c && !self.pinned_reachable(self.cids@[i].id) {
                            lemma_push_contains(cpre, x, self.cids@[i].id);
                        }
                    }
                }
            }
            c += 1;
        }
        proof {
            assert forall|x: u64|
                self.has_id(x) && !(#[trigger] self.pinned_reachable(x)) implies cand@.contains(
                x,
            ) by {
                let i = choose|i: int| 0 <= i < self.cids@.len() && self.cids@[i].id == x;
            }
        }
        cand
    }

    /// One bounded pass of garbage collection. While the stats summary
    /// exceeds a size target, identifiers unreachable from every alias and
    /// transient pin are deleted in the order the tracker chose, stopping
    /// once at least `min_blocks` have been processed and the wall-clock
    /// budget is spent, or once the targets are met. Everything reachable
    /// from an alias or a pin survives. Returns true exactly when the
    /// candidate list was drained or the targets are now met.
    #[verifier::rlimit(100)]
    #[verifier::spinoff_prover]
    pub fn incremental_gc<T: CacheTracker>(
        &mut self,
        min_blocks: usize,
        max_duration: &std::time::Duration,
        targets: SizeTargets,
        tracker: &mut T,
    ) -> (done: bool)
        requires
            old(self).wf(),
        ensures
            final(self).wf(),
            final(self).aliases@ == old(self).aliases@,
            final(self).pins@ == old(self).pins@,
            final(self).next_id == old(self).next_id,
            !targets.exceeded_spec(old(self).stats) ==> *final(self) == *old(self) && done,
            forall|x: u64|
                old(self).has_id(x) && #[trigger] old(self).pinned_reachable(x) ==> final(self).has_id(x),
            forall|x: u64| #[trigger] final(self).has_id(x) ==> old(self).has_id(x),
            forall|b: u64|
                #[trigger] final(self).has_block_id(b) ==> old(self).has_block_id(b) && final(self).payload_of(b) == old(self).payload_of(b),
            forall|h: Seq<u8>|
                old(self).has_hash(h) && final(self).has_id(old(self).hash_to_id(h)) ==> final(self).has_hash(h) && final(self).hash_to_id(h) == old(self).hash_to_id(h),
            forall|b: u64|
                old(self).has_block_id(b) && final(self).has_id(b) ==> final(self).has_block_id(b)
                    && final(self).payload_of(b) == old(self).payload_of(b),
            forall|p: u64, c: u64|
                #[trigger] final(self).has_edge(p, c) <==> old(self).has_edge(p, c) && final(self).has_id(p)
                    && final(self).has_id(c),
            (targets.exceeded_spec(old(self).stats) && min_blocks >= 1 && (exists|x: u64|
                old(self).has_id(x) && !old(self).pinned_reachable(x))) ==> final(self).cids@.len() < old(self).cids@.len(),
            done <==> (forall|x: u64|
                old(self).has_id(x) && !(#[trigger] old(self).pinned_reachable(x)) ==> !final(self).has_id(x)) || !targets.exceeded_spec(final(self).stats),
            !done ==> targets.exceeded_spec(final(self).stats) && old(self).cids@.len() >= final(self).cids@.len() + min_blocks,
    {
        let ghost pre = *old(self);
        let stats0 = self.get_store_stats();
        if !targets.exceeded(&stats0) {
            return true;
        }
        proof {
            // the edge relation seen through the invariant below
            assert forall|p2: u64, c2: u64| #[trigger] self.has_edge(p2, c2) == (pre.has_edge(
                p2,
                c2,
            ) && self.has_id(p2) && self.has_id(c2)) by {
                if self.has_edge(p2, c2) {
                    let i = choose|i: int|
                        0 <= i < self.refs@.len() && self.refs@[i].parent == p2
                            && self.refs@[i].child == c2;
                    assert(self.has_id(self.refs@[i].parent) && self.has_id(self.refs@[i].child));
                }
            }
        }
        let mut cand = self.gc_candidates();
        let ghost cand0 = cand@;
        tracker.sort_ids(&mut cand);
        proof {
            lemma_multiset_perm(cand0, cand@);
            assert forall|j: int| 0 <= j < cand@.len() implies pre.has_id(#[trigger] cand@[j])
                && !pre.pinned_reachable(cand@[j]) && self.has_id(cand@[j]) by {
                assert(cand@.contains(cand@[j]));
                assert(cand0.contains(cand@[j]));
                let j0 = choose|j0: int| 0 <= j0 < cand0.len() && cand0[j0] == cand@[j];
            }
            assert forall|x: u64|
                pre.has_id(x) && !(#[trigger] pre.pinned_reachable(x)) implies cand@.contains(
                x,
            ) by {
                assert(cand0.contains(x));
            }
            assert(cand@.take(0) =~= Seq::<u64>::empty());
        }
        let t0 = clock_now();
        let mut n: usize = 0;
        let mut stop = false;
        while !stop && n < cand.len()
            invariant
                self.wf(),
                self.aliases@ == pre.aliases@,
                self.pins@ == pre.pins@,
                self.next_id == pre.next_id,
                0 <= n <= cand@.len(),
                cand@.no_duplicates(),
                forall|j: int|
                    0 <= j < cand@.len() ==> pre.has_id(#[trigger] cand@[j])
                        && !pre.pinned_reachable(cand@[j]),
                forall|x: u64|
                    pre.has_id(x) && !(#[trigger] pre.pinned_reachable(x)) ==> cand@.contains(x),
                forall|j: int| n <= j < cand@.len() ==> self.has_id(#[trigger] cand@[j]),
                forall|j: int| 0 <= j < n ==> !self.has_id(#[trigger] cand@[j]),
                forall|x: u64|
                    #[trigger] self.has_id(x) <==> pre.has_id(x) && !cand@.take(n as int).contains(
                        x,
                    ),
                forall|b: u64|
                    #[trigger] self.has_block_id(b) <==> pre.has_block_id(b) && !cand@.take(
                        n as int,
                    ).contains(b),
                forall|p2: u64, c2: u64|
                    #[trigger] self.has_edge(p2, c2) <==> pre.has_edge(p2, c2) && self.has_id(p2)
                        && self.has_id(c2),
                forall|b: u64|
                    #[trigger] self.has_block_id(b) ==> pre.has_block_id(b) && self.payload_of(b)
                        == pre.payload_of(b),
                forall|h: Seq<u8>|
                    pre.has_hash(h) && self.has_id(pre.hash_to_id(h)) ==> self.has_hash(h)
                        && self.hash_to_id(h) == pre.hash_to_id(h),
                self.cids@.len() + n == pre.cids@.len(),
                n == 0 ==> self.stats == pre.stats,
                stop ==> n >= min_blocks || !targets.exceeded_spec(self.stats),
            decreases cand@.len() - n + (if stop {
                0int
            } else {
                1int
            }),
        {
            let mut halt = false;
            if n >= min_blocks {
                let spent = clock_elapsed(&t0);
                if duration_micros(&spent) > duration_micros(max_duration) {
                    halt = true;
                }
            }
            if halt {
                stop = true;
            } else if !targets.exceeded(&self.stats) {
                stop = true;
            } else {
                let x = cand[n];
                let ghost mid = *self;
                proof {
                    assert(!self.aliased(x)) by {
                        if self.aliased(x) {
                            let i = choose|i: int|
                                0 <= i < self.aliases@.len() && self.aliases@[i].id == x;
                            assert(pre.aliases@[i].id == x);
                            assert(pre.seed(x));
                            pre.lemma_seed_is_reachable(x);
                        }
                    }
                    assert(!self.pinned(x)) by {
                        if self.pinned(x) {
                            let i = choose|i: int|
                                0 <= i < self.pins@.len() && self.pins@[i].id == x;
                            assert(pre.pins@[i].id == x);
                            assert(pre.seed(x));
                            pre.lemma_seed_is_reachable(x);
                        }
                    }
                }
                self.delete_unreachable_id(x);
                proof {
                    let tn = cand@.take(n as int);
                    let tn1 = cand@.take(n + 1);
                    assert(tn1.drop_last() =~= tn);
                    assert(tn1.last() == cand@[n as int]);
                    assert forall|x2: u64| #[trigger] self.has_id(x2) == (pre.has_id(x2)
                        && !tn1.contains(x2)) by {
                        assert(tn1.contains(x2) == (tn.contains(x2) || x2 == cand@[n as int])) by {
                            if tn1.contains(x2) {
                                let j = choose|j: int| 0 <= j < tn1.len() && tn1[j] == x2;
                                if j < n {
                                    assert(tn[j] == x2);
                                }
                            }
                            if tn.contains(x2) {
                                let j = choose|j: int| 0 <= j < tn.len() && tn[j] == x2;
                                assert(tn1[j] == x2);
                            }
                            if x2 == cand@[n as int] {
                                assert(tn1[n as int] == x2);
                            }
                        }
                    }
                    assert forall|h: Seq<u8>|
                        pre.has_hash(h) && self.has_id(pre.hash_to_id(h)) implies self.has_hash(h)
                        && self.hash_to_id(h) == pre.hash_to_id(h) by {
                        assert(mid.has_id(pre.hash_to_id(h)));
                        assert(mid.has_hash(h) && mid.hash_to_id(h) == pre.hash_to_id(h));
                        assert(mid.hash_to_id(h) != x);
                    }
                    assert forall|b: u64| #[trigger] self.has_block_id(b) == (pre.has_block_id(b)
                        && !tn1.contains(b)) by {
                        assert(tn1.contains(b) == (tn.contains(b) || b == cand@[n as int])) by {
                            if tn1.contains(b) {
                                let j = choose|j: int| 0 <= j < tn1.len() && tn1[j] == b;
                                if j < n {
                                    assert(tn[j] == b);
                                }
                            }
                            if tn.contains(b) {
                                let j = choose|j: int| 0 <= j < tn.len() && tn[j] == b;
                                assert(tn1[j] == b);
                            }
                            if b == cand@[n as int] {
                                assert(tn1[n as int] == b);
                            }
                        }
                        assert(self.has_block_id(b) == (mid.has_block_id(b) && b != x));
                    }
                    assert forall|p2: u64, c2: u64| #[trigger] self.has_edge(p2, c2) == (
                    pre.has_edge(p2, c2) && self.has_id(p2) && self.has_id(c2)) by {
                        assert(self.has_edge(p2, c2) == (mid.has_edge(p2, c2) && p2 != x && c2
                            != x));
                        assert(self.has_id(p2) == (mid.has_id(p2) && p2 != x));
                        assert(self.has_id(c2) == (mid.has_id(c2) && c2 != x));
                    }
                }
                n += 1;
            }
        }
        let mut evicted: Vec<u64> = Vec::new();
        let mut j: usize = 0;
        while j < n
            invariant
                0 <= j <= n <= cand@.len(),
                evicted@ == cand@.take(j as int),
            decreases n - j,
        {
            proof {
                assert(cand@.take(j + 1).drop_last() =~= cand@.take(j as int));
                assert(cand@.take(j + 1).last() == cand@[j as int]);
            }
            evicted.push(cand[j]);
            j += 1;
        }
        tracker.delete_ids(&evicted);
        let done = n == cand.len() || !targets.exceeded(&self.stats);
        proof {
            if n == cand@.len() {
                assert forall|x: u64|
                    pre.has_id(x) && !(#[trigger] pre.pinned_reachable(x)) implies !self.has_id(
                    x,
                ) by {
                    assert(cand@.contains(x));
                    let j2 = choose|j2: int| 0 <= j2 < cand@.len() && cand@[j2] == x;
                }
            }
            if targets.exceeded_spec(pre.stats) && min_blocks >= 1 && (exists|x: u64|
                pre.has_id(x) && !pre.pinned_reachable(x)) {
                assert(n >= 1) by {
                    if n == 0 {
                        let x = choose|x: u64| pre.has_id(x) && !pre.pinned_reachable(x);
                        assert(cand@.contains(x));
                        assert(cand@.len() > 0);
                        assert(stop);
                    }
                }
            }
            if !done {
                // the loop halted on the clock, after at least min_blocks
                assert(n < cand@.len() && targets.exceeded_spec(self.stats));
                assert(stop);
                assert(n >= min_blocks);
            }
            if (forall|x: u64|
                pre.has_id(x) && !(#[trigger] pre.pinned_reachable(x)) ==> !self.has_id(x)) {
                // every candidate is gone, so the whole list was processed
                assert(n == cand@.len()) by {
                    if n < cand@.len() {
                        assert(self.has_id(cand@[n as int]));
                        assert(pre.has_id(cand@[n as int]) && !pre.pinned_reachable(
                            cand@[n as int],
                        ));
                    }
                }
            }
        }
        done
    }

    /// One bounded pass of the orphan sweep: delete stored payloads whose
    /// identifier is no longer interned, stopping once at least
    /// `min_blocks` have been processed and the wall-clock budget is
    /// spent. Payloads of interned identifiers are never touched, and the
    /// stats summary does not change: orphans were never counted. Returns
    /// true exactly when the whole orphan list was processed; afterwards
    /// no orphan remains.
    #[verifier::rlimit(100)]
    #[verifier::spinoff_prover]
    pub fn incremental_delete_orphaned(
        &mut self,
        min_blocks: usize,
        max_duration: &std::time::Duration,
    ) -> (done: bool)
        requires
            old(self).wf(),
        ensures
            final(self).wf(),
            final(self).cids@ == old(self).cids@,
            final(self).refs@ == old(self).refs@,
            final(self).aliases@ == old(self).aliases@,
            final(self).pins@ == old(self).pins@,
            final(self).stats == old(self).stats,
            final(self).next_id == old(self).next_id,
            forall|b: u64|
                old(self).has_block_id(b) && old(self).has_id(b) ==> final(self).has_block_id(b)
                    && final(self).payload_of(b) == old(self).payload_of(b),
            forall|b: u64| #[trigger] final(self).has_block_id(b) ==> old(self).has_block_id(b),
            done <==> (forall|b: u64|
                #[trigger] final(self).has_block_id(b) ==> final(self).has_id(b)),
            old(self).blocks@.len() <= min_blocks + live_count(
                old(self).id_set(),
                old(self).blocks@,
            ) ==> done,
    {
        let ghost pre = *old(self);
        let t0 = clock_now();
        let mut orphans: Vec<u64> = Vec::new();
        let mut c: usize = 0;
        while c < self.blocks.len()
            invariant
                self.wf(),
                0 <= c <= self.blocks@.len(),
                orphans@.no_duplicates(),
                orphans@.len() + live_count(self.id_set(), self.blocks@.take(c as int)) == c,
                forall|j: int|
                    0 <= j < orphans@.len() ==> self.blocks@.take(c as int).map_values(
                        |b2: BlockRow| b2.id,
                    ).contains(#[trigger] orphans@[j]),
                forall|j: int|
                    0 <= j < orphans@.len() ==> self.has_block_id(#[trigger] orphans@[j])
                        && !self.has_id(orphans@[j]),
                forall|i: int|
                    0 <= i < c ==> self.has_id(#[trigger] self.blocks@[i].id) || orphans@.contains(
                        self.blocks@[i].id,
                    ),
            decreases self.blocks@.len() - c,
        {
            let x = self.blocks[c].id;
            let ghost opre = orphans@;
            let ghost mapped = self.blocks@.take(c as int).map_values(|b2: BlockRow| b2.id);
            let ghost mapped1 = self.blocks@.take(c + 1).map_values(|b2: BlockRow| b2.id);
            proof {
                self.lemma_block_row(c as int);
                assert(mapped1[c as int] == x);
                assert(self.id_set().contains(x) == self.has_id(x));
                assert(self.blocks@.take(c + 1).drop_last() =~= self.blocks@.take(c as int));
                assert(self.blocks@.take(c + 1).last() == self.blocks@[c as int]);
                lemma_live_push(
                    self.id_set(),
                    self.blocks@.take(c as int),
                    self.blocks@[c as int],
                );
            }
            if !self.has_id_present(x) {
                proof {
                    assert(!orphans@.contains(x)) by {
                        if orphans@.contains(x) {
                            let j = choose|j: int|
                                0 <= j < orphans@.len() && orphans@[j] == x;
                            let f = choose|f: int| 0 <= f < mapped.len() && mapped[f] == x;
                            assert(self.blocks@[f].id == x && self.blocks@[c as int].id == x);
                        }
                    }
                }
                orphans.push(x);
                proof {
                    assert(orphans@[orphans@.len() - 1] == x);
                    assert forall|i: int|
                        0 <= i < c + 1 implies self.has_id(#[trigger] self.blocks@[i].id)
                        || orphans@.contains(self.blocks@[i].id) by {
                        if i < c && !self.has_id(self.blocks@[i].id) {
                            lemma_push_contains(opre, x, self.blocks@[i].id);
                        }
                    }
                    assert forall|j: int| 0 <= j < orphans@.len() implies mapped1.contains(
                        #[trigger] orphans@[j],
                    ) by {
                        if j < orphans@.len() - 1 {
                            let f = choose|f: int|
                                0 <= f < mapped.len() && mapped[f] == orphans@[j];
                            assert(mapped1[f] == orphans@[j]);
                        } else {
                            assert(mapped1[c as int] == orphans@[j]);
                        }
                    }
                }
            } else {
                proof {
                    assert forall|j: int| 0 <= j < orphans@.len() implies mapped1.contains(
                        #[trigger] orphans@[j],
                    ) by {
                        let f = choose|f: int| 0 <= f < mapped.len() && mapped[f] == orphans@[j];
                        assert(mapped1[f] == orphans@[j]);
                    }
                }
            }
            c += 1;
        }
        proof {
            assert(orphans@.skip(0) =~= orphans@);
            assert(self.blocks@.take(self.blocks@.len() as int) =~= self.blocks@);
            assert(orphans@.len() + live_count(self.id_set(), self.blocks@) == self.blocks@.len());
            assert forall|b: u64|
                #[trigger] self.has_block_id(b) && !self.has_id(b) implies orphans@.skip(
                0,
            ).contains(b) by {
                let i = choose|i: int| 0 <= i < self.blocks@.len() && self.blocks@[i].id == b;
            }
        }
        let mut n: usize = 0;
        let mut stop = false;
        while !stop && n < orphans.len()
            invariant
                self.wf(),
                orphans@.no_duplicates(),
                self.cids@ == pre.cids@,
                self.refs@ == pre.refs@,
                self.aliases@ == pre.aliases@,
                self.pins@ == pre.pins@,
                self.stats == pre.stats,
                self.next_id == pre.next_id,
                0 <= n <= orphans@.len(),
                forall|j: int|
                    n <= j < orphans@.len() ==> self.has_block_id(#[trigger] orphans@[j])
                        && !self.has_id(orphans@[j]),
                forall|b: u64|
                    pre.has_block_id(b) && pre.has_id(b) ==> self.has_block_id(b)
                        && self.payload_of(b) == pre.payload_of(b),
                forall|b: u64| #[trigger] self.has_block_id(b) ==> pre.has_block_id(b),
                forall|b: u64|
                    #[trigger] self.has_block_id(b) && !self.has_id(b) ==> orphans@.skip(
                        n as int,
                    ).contains(b),
                stop ==> n >= min_blocks,
            decreases orphans@.len() - n + (if stop {
                0int
            } else {
                1int
            }),
        {
            let mut halt = false;
            if n >= min_blocks {
                let spent = clock_elapsed(&t0);
                if duration_micros(&spent) > duration_micros(max_duration) {
                    halt = true;
                }
            }
            if halt {
                stop = true;
            } else {
                let x = orphans[n];
                let ghost mid = *self;
                self.delete_orphan_block(x);
                proof {
                    lemma_same_cids_maps(mid, *self);
                    let sn = orphans@.skip(n as int);
                    let sn1 = orphans@.skip(n + 1);
                    assert forall|b: u64|
                        #[trigger] self.has_block_id(b) && !self.has_id(b) implies sn1.contains(
                        b,
                    ) by {
                        assert(mid.has_block_id(b) && !mid.has_id(b));
                        assert(sn.contains(b));
                        let j = choose|j: int| 0 <= j < sn.len() && sn[j] == b;
                        assert(orphans@[j + n] == b);
                        assert(b != orphans@[n as int]);
                        assert(j != 0);
                        assert(sn1[j - 1] == orphans@[j - 1 + n + 1]);
                        assert(sn1[j - 1] == b);
                    }
                    assert forall|j: int|
                        n + 1 <= j < orphans@.len() implies self.has_block_id(
                        #[trigger] orphans@[j],
                    ) && !self.has_id(orphans@[j]) by {
                        assert(mid.has_block_id(orphans@[j]) && !mid.has_id(orphans@[j]));
                        assert(orphans@[j] != orphans@[n as int]);
                    }
                }
                n += 1;
            }
        }
        proof {
            if n < orphans@.len() {
                // the orphan at the cursor is still present: not done
                assert(self.has_block_id(orphans@[n as int]) && !self.has_id(orphans@[n as int]));
            }
            if pre.blocks@.len() <= min_blocks + live_count(pre.id_set(), pre.blocks@) {
                // the whole list fits in the guaranteed budget
                assert(orphans@.len() <= min_blocks);
                if n < orphans@.len() {
                    assert(stop);
                    assert(n >= min_blocks);
                }
            }
        }
        n == orphans.len()
    }

    /// Delete one orphaned payload row: its identifier is not interned, so
    /// the stats summary is unaffected.
    #[verifier::rlimit(100)]
    fn delete_orphan_block(&mut self, id: u64)
        requires
            old(self).wf(),
            old(self).has_block_id(id),
            !old(self).has_id(id),
        ensures
            final(self).wf(),
            final(self).cids@ == old(self).cids@,
            final(self).refs@ == old(self).refs@,
            final(self).aliases@ == old(self).aliases@,
            final(self).pins@ == old(self).pins@,
            final(self).stats == old(self).stats,
            final(self).next_id == old(self).next_id,
            forall|b: u64|
                #[trigger] final(self).has_block_id(b) <==> old(self).has_block_id(b) && b != id,
            forall|b: u64|
                final(self).has_block_id(b) ==> final(self).payload_of(b) == old(self).payload_of(
                    b,
                ),
    {
        let ghost pre = *old(self);
        let mut bi: usize = 0;
        let mut bfound = false;
        while !bfound && bi < self.blocks.len()
            invariant
                self.wf(),
                *self == pre,
                self.has_block_id(id),
                !bfound ==> 0 <= bi <= self.blocks@.len(),
                !bfound ==> forall|j: int| 0 <= j < bi ==> self.blocks@[j].id != id,
                bfound ==> 0 <= bi < self.blocks@.len() && self.blocks@[bi as int].id == id,
            decreases self.blocks@.len() - bi + (if bfound {
                0int
            } else {
                1int
            }),
        {
            if self.blocks[bi].id == id {
                bfound = true;
            } else {
                bi += 1;
            }
        }
        proof {
            assert(bfound) by {
                if !bfound {
                    assert(!self.has_block_id(id));
                }
            }
            lemma_live_remove(pre.id_set(), pre.blocks@, bi as int);
            assert(!pre.id_set().contains(id));
        }
        self.blocks.remove(bi);
        proof {
            pre.blocks@.remove_ensures(bi as int);
            lemma_same_cids_maps(pre, *self);
            lemma_same_refs_edges(pre, *self);
            assert forall|x: u64| self.id_set().contains(x) == pre.id_set().contains(x) by {
                assert(self.cids@ == pre.cids@);
            }
            assert(self.id_set() =~= pre.id_set());
            assert forall|a: int, b: int|
                0 <= a < b < self.blocks@.len() implies self.blocks@[a].id != self.blocks@[b].id by {
                let a0: int = if a < bi {
                    a
                } else {
                    a + 1
                };
                let b0: int = if b < bi {
                    b
                } else {
                    b + 1
                };
                assert(self.blocks@[a] == pre.blocks@[a0]);
                assert(self.blocks@[b] == pre.blocks@[b0]);
            }
            assert(self.stats_ok());
            assert(self.wf());
            assert forall|b: u64| #[trigger] self.has_block_id(b) == (pre.has_block_id(b) && b
                != id) by {
                if self.has_block_id(b) {
                    let j = choose|j: int| 0 <= j < self.blocks@.len() && self.blocks@[j].id == b;
                    let j0: int = if j < bi {
                        j
                    } else {
                        j + 1
                    };
                    assert(self.blocks@[j] == pre.blocks@[j0]);
                    assert(pre.has_block_id(b));
                    assert(j0 != bi);
                }
                if pre.has_block_id(b) && b != id {
                    let j0 = choose|j0: int|
                        0 <= j0 < pre.blocks@.len() && pre.blocks@[j0].id == b;
                    assert(j0 != bi);
                    let j: int = if j0 < bi {
                        j0
                    } else {
                        j0 - 1
                    };
                    assert(self.blocks@[j] == pre.blocks@[j0]);
                }
            }
            assert forall|b: u64| self.has_block_id(b) implies self.payload_of(b)
                == pre.payload_of(b) by {
                let j = choose|j: int| 0 <= j < self.blocks@.len() && self.blocks@[j].id == b;
                self.lemma_block_row(j);
                let j0: int = if j < bi {
                    j
                } else {
                    j + 1
                };
                assert(self.blocks@[j] == pre.blocks@[j0]);
                pre.lemma_block_row(j0);
            }
        }
    }

    /// Reopen the store after a shutdown or crash: all transient pins are
    /// purged and the stats summary is rebuilt from the ground truth.
    /// Durable aliases, identifiers, payloads and link edges all survive,
    /// and the rebuilt summary equals the one maintained incrementally.
    pub fn reopen(&mut self)
        requires
            old(self).wf(),
        ensures
            final(self).wf(),
            final(self).cids@ == old(self).cids@,
            final(self).refs@ == old(self).refs@,
            final(self).blocks@ == old(self).blocks@,
            final(self).aliases@ == old(self).aliases@,
            final(self).pins@.len() == 0,
            final(self).stats == old(self).stats,
            final(self).next_id == old(self).next_id,
    {
        let ghost pre = *old(self);
        let ground = self.compute_store_stats();
        self.stats = ground;
        self.pins = Vec::new();
        proof {
            lemma_same_cids_maps(pre, *self);
            crate::store::lemma_same_storage_stats(pre, *self);
        }
    }
}

} // verus!
