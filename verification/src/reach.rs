//! Reachability over the link-edge relation: the path-based specification,
//! the verified worklist closure, and the queries built on it (descendants,
//! missing blocks, reverse aliases).
//!
//! The walks deduplicate at every step, so they terminate on any finite
//! edge relation, cycles included: nothing here assumes acyclicity.

use vstd::prelude::*;

use crate::store::Store;
use crate::store::contains_u64;
use crate::store::lemma_distinct_ids_bound;

verus! {

/// An element of a sequence is still in it after a push.
pub proof fn lemma_push_contains<A>(s: Seq<A>, x: A, y: A)
    requires
        s.contains(y),
    ensures
        s.push(x).contains(y),
{
    let a = choose|a: int| 0 <= a < s.len() && s[a] == y;
    assert(s.push(x)[a] == y);
}

impl Store {
    /// One step along the edge relation: forward to a child, or backward
    /// to a parent.
    pub open spec fn step(self, back: bool, a: u64, b: u64) -> bool {
        if back {
            self.has_edge(b, a)
        } else {
            self.has_edge(a, b)
        }
    }

    /// A non-empty sequence of identifiers linked by consecutive steps.
    pub open spec fn is_chain(self, back: bool, p: Seq<u64>) -> bool {
        p.len() > 0 && forall|i: int|
            0 <= i < p.len() - 1 ==> #[trigger] self.step(back, p[i], p[i + 1])
    }

    /// `dst` is reachable from `src` along steps in the given direction.
    /// Every identifier reaches itself.
    #[verifier::opaque]
    pub open spec fn reaches(self, back: bool, src: u64, dst: u64) -> bool {
        exists|p: Seq<u64>| self.is_chain(back, p) && p.first() == src && p.last() == dst
    }

    /// `dst` is a descendant of `src` via link edges (or `src` itself).
    pub open spec fn can_reach(self, src: u64, dst: u64) -> bool {
        self.reaches(false, src, dst)
    }

    /// The transitive closure of the links out of `root`, `root` included.
    pub open spec fn descendant_set(self, root: u64) -> Set<u64> {
        Set::new(|x: u64| self.can_reach(root, x))
    }

    /// The descendants of `root` that have no stored payload.
    pub open spec fn missing_set(self, root: u64) -> Set<u64> {
        Set::new(|x: u64| self.can_reach(root, x) && !self.has_block_id(x))
    }

    /// `id` is reachable from some durable alias or transient pin: the
    /// safety property garbage collection preserves.
    pub open spec fn pinned_reachable(self, id: u64) -> bool {
        exists|s: u64| self.seed(s) && self.can_reach(s, id)
    }

    /// Some durable alias with this name points at an ancestor of `root`.
    pub open spec fn alias_to_ancestor(self, name: Seq<u8>, root: u64) -> bool {
        exists|y: u64| self.is_alias(name, y) && self.can_reach(y, root)
    }

    /// `x` is reachable from some element of the seed list.
    pub open spec fn seed_reaches(self, back: bool, seeds: Seq<u64>, x: u64) -> bool {
        exists|k: int| 0 <= k < seeds.len() && self.reaches(back, seeds[k], x)
    }

    /// Reachability is reflexive.
    pub proof fn lemma_reach_refl(self, back: bool, x: u64)
        ensures
            self.reaches(back, x, x),
    {
        reveal(Store::reaches);
        let p = seq![x];
        assert(p.len() == 1);
        assert(self.is_chain(back, p));
        assert(p.first() == x && p.last() == x);
    }

    /// Reachability extends along one more step.
    pub proof fn lemma_reach_step(self, back: bool, a: u64, b: u64, c: u64)
        requires
            self.reaches(back, a, b),
            self.step(back, b, c),
        ensures
            self.reaches(back, a, c),
    {
        reveal(Store::reaches);
        let p = choose|p: Seq<u64>|
            self.is_chain(back, p) && p.first() == a && p.last() == b;
        let q = p.push(c);
        assert forall|i: int| 0 <= i < q.len() - 1 implies #[trigger] self.step(back, q[i], q[i + 1]) by {
            if i < p.len() - 1 {
                assert(q[i] == p[i] && q[i + 1] == p[i + 1]);
            } else {
                assert(q[i] == p.last() && q[i + 1] == c);
            }
        }
        assert(self.is_chain(back, q));
        assert(q.first() == a && q.last() == c);
    }

    /// A chain can be walked in the opposite direction.
    proof fn lemma_flip_chain(self, back: bool, p: Seq<u64>)
        requires
            self.is_chain(back, p),
        ensures
            self.reaches(!back, p.last(), p.first()),
        decreases p.len(),
    {
        if p.len() == 1 {
            self.lemma_reach_refl(!back, p.first());
        } else {
            let r = p.drop_first();
            assert forall|i: int| 0 <= i < r.len() - 1 implies #[trigger] self.step(back, r[i], r[i + 1]) by {
                assert(r[i] == p[i + 1] && r[i + 1] == p[i + 2]);
            }
            assert(self.is_chain(back, r));
            self.lemma_flip_chain(back, r);
            assert(r.last() == p.last() && r.first() == p[1]);
            assert(self.step(back, p[0], p[1]));
            assert(self.step(!back, p[1], p[0]));
            self.lemma_reach_step(!back, p.last(), p[1], p[0]);
        }
    }

    /// Reachability flips with the walking direction: the ancestors of `x`
    /// are exactly the identifiers from which `x` is reachable.
    pub proof fn lemma_reach_flip(self, back: bool, x: u64, y: u64)
        requires
            self.reaches(back, x, y),
        ensures
            self.reaches(!back, y, x),
    {
        reveal(Store::reaches);
        let p = choose|p: Seq<u64>|
            self.is_chain(back, p) && p.first() == x && p.last() == y;
        self.lemma_flip_chain(back, p);
    }

    /// A set of identifiers that contains a chain's head and is closed
    /// under steps contains the chain's end.
    proof fn lemma_chain_in_closed(self, back: bool, v: Seq<u64>, p: Seq<u64>)
        requires
            self.is_chain(back, p),
            v.contains(p.first()),
            forall|a: u64, b: u64| v.contains(a) && #[trigger] self.step(back, a, b) ==> v.contains(
                b,
            ),
        ensures
            v.contains(p.last()),
        decreases p.len(),
    {
        if p.len() > 1 {
            let q = p.drop_last();
            assert forall|i: int| 0 <= i < q.len() - 1 implies #[trigger] self.step(back, q[i], q[i + 1]) by {
                assert(q[i] == p[i] && q[i + 1] == p[i + 1]);
            }
            assert(self.is_chain(back, q));
            assert(q.first() == p.first());
            self.lemma_chain_in_closed(back, v, q);
            assert(q.last() == p[p.len() - 2]);
            let n = p.len() - 2;
            assert(self.step(back, p[n], p[n + 1]));
            assert(p.last() == p[n + 1]);
        }
    }

    /// Every identifier one step away from `cur` in the given direction,
    /// read off the edge table (possibly with repeats).
    #[verifier::rlimit(60)]
    #[verifier::spinoff_prover]
    fn targets_of(&self, cur: u64, back: bool) -> (r: Vec<u64>)
        requires
            self.wf(),
        ensures
            forall|a: int|
                0 <= a < r@.len() ==> self.step(back, cur, #[trigger] r@[a]) && self.has_id(r@[a]),
            forall|y: u64| #[trigger] self.step(back, cur, y) ==> r@.contains(y),
    {
        let mut out: Vec<u64> = Vec::new();
        let mut e: usize = 0;
        while e < self.refs.len()
            invariant
                self.wf(),
                0 <= e <= self.refs@.len(),
                forall|a: int|
                    0 <= a < out@.len() ==> self.step(back, cur, #[trigger] out@[a]) && self.has_id(
                        out@[a],
                    ),
                forall|f: int|
                    0 <= f < e ==> (if back {
                        (#[trigger] self.refs@[f]).child
                    } else {
                        self.refs@[f].parent
                    }) != cur || out@.contains(
                        if back {
                            self.refs@[f].parent
                        } else {
                            self.refs@[f].child
                        },
                    ),
            decreases self.refs@.len() - e,
        {
            let row = self.refs[e];
            let src = if back {
                row.child
            } else {
                row.parent
            };
            let tgt = if back {
                row.parent
            } else {
                row.child
            };
            let ghost pre = out@;
            if src == cur {
                out.push(tgt);
                proof {
                    assert(self.has_edge(row.parent, row.child));
                    assert(self.step(back, cur, tgt));
                    assert(out@[out@.len() - 1] == tgt);
                    assert forall|f: int|
                        0 <= f < e + 1 && (if back {
                            (#[trigger] self.refs@[f]).child
                        } else {
                            self.refs@[f].parent
                        }) == cur implies out@.contains(
                        if back {
                            self.refs@[f].parent
                        } else {
                            self.refs@[f].child
                        },
                    ) by {
                        let y = if back {
                            self.refs@[f].parent
                        } else {
                            self.refs@[f].child
                        };
                        if f < e {
                            lemma_push_contains(pre, tgt, y);
                        } else {
                            assert(out@.contains(tgt));
                        }
                    }
                }
            }
            e += 1;
        }
        proof {
            assert forall|y: u64| #[trigger] self.step(back, cur, y) implies out@.contains(y) by {
                if back {
                    let f = choose|f: int|
                        0 <= f < self.refs@.len() && self.refs@[f].parent == y && self.refs@[f].child
                            == cur;
                    assert((if back {
                        self.refs@[f].child
                    } else {
                        self.refs@[f].parent
                    }) == cur);
                } else {
                    let f = choose|f: int|
                        0 <= f < self.refs@.len() && self.refs@[f].parent == cur
                            && self.refs@[f].child == y;
                    assert((if back {
                        self.refs@[f].child
                    } else {
                        self.refs@[f].parent
                    }) == cur);
                }
            }
        }
        out
    }

    /// Add to `visited` every element of `tg` not already present. Each
    /// element of `tg` is one step from `cur`, so everything added stays
    /// reachable from the seeds.
    #[verifier::rlimit(100)]
    #[verifier::spinoff_prover]
    fn absorb_targets(
        &self,
        visited: &mut Vec<u64>,
        cur: u64,
        tg: &Vec<u64>,
        back: bool,
        seeds: Ghost<Seq<u64>>,
    )
        requires
            self.wf(),
            old(visited)@.no_duplicates(),
            old(visited)@.len() <= self.cids@.len(),
            forall|a: int| 0 <= a < old(visited)@.len() ==> self.has_id(#[trigger] old(visited)@[a]),
            forall|a: int|
                0 <= a < old(visited)@.len() ==> self.seed_reaches(
                    back,
                    seeds@,
                    #[trigger] old(visited)@[a],
                ),
            self.seed_reaches(back, seeds@, cur),
            forall|a: int|
                0 <= a < tg@.len() ==> self.step(back, cur, #[trigger] tg@[a]) && self.has_id(
                    tg@[a],
                ),
        ensures
            final(visited)@.no_duplicates(),
            final(visited)@.len() >= old(visited)@.len(),
            final(visited)@.len() <= self.cids@.len(),
            final(visited)@.take(old(visited)@.len() as int) == old(visited)@,
            forall|a: int| 0 <= a < final(visited)@.len() ==> self.has_id(#[trigger] final(visited)@[a]),
            forall|a: int|
                0 <= a < final(visited)@.len() ==> self.seed_reaches(
                    back,
                    seeds@,
                    #[trigger] final(visited)@[a],
                ),
            forall|x: u64| old(visited)@.contains(x) ==> final(visited)@.contains(x),
            forall|a: int| 0 <= a < tg@.len() ==> final(visited)@.contains(#[trigger] tg@[a]),
    {
        let ghost v0 = visited@;
        let mut m: usize = 0;
        while m < tg.len()
            invariant
                self.wf(),
                0 <= m <= tg@.len(),
                visited@.len() >= v0.len(),
                visited@.take(v0.len() as int) == v0,
                visited@.no_duplicates(),
                visited@.len() <= self.cids@.len(),
                self.seed_reaches(back, seeds@, cur),
                forall|a: int|
                    0 <= a < tg@.len() ==> self.step(back, cur, #[trigger] tg@[a]) && self.has_id(
                        tg@[a],
                    ),
                forall|a: int| 0 <= a < visited@.len() ==> self.has_id(#[trigger] visited@[a]),
                forall|a: int|
                    0 <= a < visited@.len() ==> self.seed_reaches(
                        back,
                        seeds@,
                        #[trigger] visited@[a],
                    ),
                forall|x: u64| v0.contains(x) ==> visited@.contains(x),
                forall|a: int| 0 <= a < m ==> visited@.contains(#[trigger] tg@[a]),
            decreases tg@.len() - m,
        {
            let t = tg[m];
            let ghost vpre = visited@;
            if !contains_u64(visited, t) {
                proof {
                    lemma_distinct_ids_bound(*self, visited@.push(t));
                }
                visited.push(t);
                proof {
                    assert(visited@[visited@.len() - 1] == t);
                    assert(visited@.contains(t));
                    assert(visited@.take(v0.len() as int) =~= vpre.take(v0.len() as int));
                    assert(self.seed_reaches(back, seeds@, t)) by {
                        let k = choose|k: int|
                            0 <= k < seeds@.len() && self.reaches(back, seeds@[k], cur);
                        assert(self.step(back, cur, t));
                        self.lemma_reach_step(back, seeds@[k], cur, t);
                    }
                    assert forall|a: int| 0 <= a < visited@.len() implies self.seed_reaches(
                        back,
                        seeds@,
                        #[trigger] visited@[a],
                    ) by {
                        if a < vpre.len() {
                            assert(visited@[a] == vpre[a]);
                        } else {
                            assert(visited@[a] == t);
                        }
                    }
                    assert forall|x: u64| v0.contains(x) implies visited@.contains(x) by {
                        lemma_push_contains(vpre, t, x);
                    }
                    assert forall|a: int| 0 <= a < m + 1 implies visited@.contains(
                        #[trigger] tg@[a],
                    ) by {
                        if a < m {
                            lemma_push_contains(vpre, t, tg@[a]);
                        }
                    }
                }
            }
            m += 1;
        }
    }

    /// The worklist closure: all identifiers reachable from the seed list
    /// in the given direction, each exactly once.
    #[verifier::rlimit(100)]
    #[verifier::spinoff_prover]
    pub(crate) fn closure_from(&self, seeds: &Vec<u64>, back: bool) -> (r: Vec<u64>)
        requires
            self.wf(),
            forall|k: int| 0 <= k < seeds@.len() ==> self.has_id(#[trigger] seeds@[k]),
        ensures
            r@.no_duplicates(),
            forall|i: int| 0 <= i < r@.len() ==> self.has_id(#[trigger] r@[i]),
            forall|x: u64| #[trigger] r@.contains(x) ==> self.seed_reaches(back, seeds@, x),
            forall|x: u64| #[trigger] self.seed_reaches(back, seeds@, x) ==> r@.contains(x),
    {
        let mut visited: Vec<u64> = Vec::new();
        let mut s: usize = 0;
        while s < seeds.len()
            invariant
                self.wf(),
                forall|k: int| 0 <= k < seeds@.len() ==> self.has_id(#[trigger] seeds@[k]),
                0 <= s <= seeds@.len(),
                visited@.no_duplicates(),
                forall|a: int| 0 <= a < visited@.len() ==> self.has_id(#[trigger] visited@[a]),
                forall|a: int|
                    0 <= a < visited@.len() ==> self.seed_reaches(
                        back,
                        seeds@,
                        #[trigger] visited@[a],
                    ),
                forall|k: int| 0 <= k < s ==> visited@.contains(#[trigger] seeds@[k]),
                visited@.len() <= self.cids@.len(),
            decreases seeds@.len() - s,
        {
            let sd = seeds[s];
            let ghost vpre = visited@;
            if !contains_u64(&visited, sd) {
                proof {
                    lemma_distinct_ids_bound(*self, visited@.push(sd));
                }
                visited.push(sd);
                proof {
                    self.lemma_reach_refl(back, sd);
                    assert(self.reaches(back, seeds@[s as int], sd));
                    assert(self.seed_reaches(back, seeds@, sd));
                    assert(visited@[visited@.len() - 1] == sd);
                    assert(visited@.contains(sd));
                    assert forall|a: int| 0 <= a < visited@.len() implies self.seed_reaches(
                        back,
                        seeds@,
                        #[trigger] visited@[a],
                    ) by {
                        if a < vpre.len() {
                            assert(visited@[a] == vpre[a]);
                        }
                    }
                    assert forall|k: int| 0 <= k < s implies visited@.contains(
                        #[trigger] seeds@[k],
                    ) by {
                        lemma_push_contains(vpre, sd, seeds@[k]);
                    }
                }
            }
            s += 1;
        }
        let mut i: usize = 0;
        while i < visited.len()
            invariant
                self.wf(),
                forall|k: int| 0 <= k < seeds@.len() ==> self.has_id(#[trigger] seeds@[k]),
                0 <= i <= visited@.len(),
                visited@.no_duplicates(),
                forall|a: int| 0 <= a < visited@.len() ==> self.has_id(#[trigger] visited@[a]),
                forall|a: int|
                    0 <= a < visited@.len() ==> self.seed_reaches(
                        back,
                        seeds@,
                        #[trigger] visited@[a],
                    ),
                forall|k: int| 0 <= k < seeds@.len() ==> visited@.contains(#[trigger] seeds@[k]),
                forall|j: int, y: u64|
                    0 <= j < i && #[trigger] self.step(back, visited@[j], y) ==> visited@.contains(
                        y,
                    ),
                visited@.len() <= self.cids@.len(),
            decreases self.cids@.len() - i,
        {
            let cur = visited[i];
            let tg = self.targets_of(cur, back);
            let ghost vouter = visited@;
            self.absorb_targets(&mut visited, cur, &tg, back, Ghost(seeds@));
            proof {
                assert forall|k: int| 0 <= k < seeds@.len() implies visited@.contains(
                    #[trigger] seeds@[k],
                ) by {
                    assert(vouter.contains(seeds@[k]));
                }
                assert forall|j: int, y: u64|
                    0 <= j < i + 1 && #[trigger] self.step(back, visited@[j], y)
                        implies visited@.contains(y) by {
                    assert(visited@.take(vouter.len() as int)[j] == vouter[j]);
                    assert(visited@[j] == vouter[j]);
                    if j < i {
                        assert(self.step(back, vouter[j], y));
                        assert(vouter.contains(y));
                    } else {
                        assert(vouter[j] == cur);
                        assert(self.step(back, cur, y));
                        assert(tg@.contains(y));
                        let a = choose|a: int| 0 <= a < tg@.len() && tg@[a] == y;
                        assert(visited@.contains(tg@[a]));
                    }
                }
            }
            i += 1;
        }
        proof {
            assert forall|x: u64| #[trigger] self.seed_reaches(back, seeds@, x)
                implies visited@.contains(x) by {
                reveal(Store::reaches);
                let k = choose|k: int| 0 <= k < seeds@.len() && self.reaches(back, seeds@[k], x);
                let p = choose|p: Seq<u64>|
                    self.is_chain(back, p) && p.first() == seeds@[k] && p.last() == x;
                assert(visited@.contains(seeds@[k]));
                assert forall|a: u64, b: u64|
                    visited@.contains(a) && #[trigger] self.step(back, a, b)
                        implies visited@.contains(b) by {
                    let j = choose|j: int| 0 <= j < visited@.len() && visited@[j] == a;
                    assert(self.step(back, visited@[j], b));
                }
                self.lemma_chain_in_closed(back, visited@, p);
            }
        }
        visited
    }

    /// Map a list of interned identifiers to their hashes.
    pub(crate) fn hashes_of_ids(&self, ids: &Vec<u64>) -> (r: Vec<Vec<u8>>)
        requires
            self.wf(),
            forall|a: int| 0 <= a < ids@.len() ==> self.has_id(#[trigger] ids@[a]),
        ensures
            r@.len() == ids@.len(),
            forall|a: int| 0 <= a < r@.len() ==> (#[trigger] r@[a])@ == self.id_to_hash(ids@[a]),
    {
        let mut out: Vec<Vec<u8>> = Vec::new();
        let mut a: usize = 0;
        while a < ids.len()
            invariant
                self.wf(),
                forall|b: int| 0 <= b < ids@.len() ==> self.has_id(#[trigger] ids@[b]),
                0 <= a <= ids@.len(),
                out@.len() == a,
                forall|b: int| 0 <= b < a ==> (#[trigger] out@[b])@ == self.id_to_hash(ids@[b]),
            decreases ids@.len() - a,
        {
            let h = self.hash_of_id(ids[a]);
            out.push(h);
            a += 1;
        }
        out
    }

    /// The hashes of all descendants of this hash via link edges, the hash
    /// itself included; empty if the hash is not interned. Exactly the
    /// transitive closure of the links, each member once.
    #[verifier::rlimit(100)]
    pub fn get_descendants(&self, hash: &Vec<u8>) -> (r: Vec<Vec<u8>>)
        requires
            self.wf(),
        ensures
            !self.has_hash(hash@) ==> r@.len() == 0,
            self.has_hash(hash@) ==> {
                let root = self.hash_to_id(hash@);
                &&& forall|a: int|
                    0 <= a < r@.len() ==> self.has_hash(#[trigger] r@[a]@) && self.can_reach(
                        root,
                        self.hash_to_id(r@[a]@),
                    )
                &&& forall|x: u64|
                    #[trigger] self.can_reach(root, x) ==> exists|a: int|
                        0 <= a < r@.len() && r@[a]@ == self.id_to_hash(x)
            },
            forall|a: int, b: int| 0 <= a < b < r@.len() ==> r@[a]@ != r@[b]@,
    {
        let found = self.get_id(hash);
        match found {
            None => Vec::new(),
            Some(root) => {
                let mut seeds: Vec<u64> = Vec::new();
                seeds.push(root);
                let ids = self.closure_from(&seeds, false);
                let out = self.hashes_of_ids(&ids);
                proof {
                    assert(seeds@[0] == root);
                    assert forall|a: int|
                        0 <= a < out@.len() implies self.has_hash(#[trigger] out@[a]@)
                        && self.can_reach(root, self.hash_to_id(out@[a]@)) by {
                        assert(ids@.contains(ids@[a]));
                        assert(self.seed_reaches(false, seeds@, ids@[a]));
                        let k = choose|k: int|
                            0 <= k < seeds@.len() && self.reaches(false, seeds@[k], ids@[a]);
                        assert(seeds@[k] == root);
                        let ci = choose|ci: int|
                            0 <= ci < self.cids@.len() && self.cids@[ci].id == ids@[a];
                        self.lemma_row_hash(ci);
                        self.lemma_row_id(ci);
                        assert(out@[a]@ == self.cids@[ci].hash@);
                    }
                    assert forall|x: u64| #[trigger] self.can_reach(root, x) implies exists|a: int|
                        0 <= a < out@.len() && out@[a]@ == self.id_to_hash(x) by {
                        assert(self.reaches(false, seeds@[0], x));
                        assert(self.seed_reaches(false, seeds@, x));
                        assert(ids@.contains(x));
                        let a = choose|a: int| 0 <= a < ids@.len() && ids@[a] == x;
                        assert(out@[a]@ == self.id_to_hash(x));
                    }
                    assert forall|a: int, b: int| 0 <= a < b < out@.len() implies out@[a]@
                        != out@[b]@ by {
                        self.lemma_id_to_hash_injective(ids@[a], ids@[b]);
                    }
                }
                out
            },
        }
    }

    /// The hashes of the descendants of this hash that have no stored
    /// payload, the hash itself included if its payload is absent. The
    /// hash is interned as a side effect, so that callers may ask about
    /// blocks they have not stored yet.
    #[verifier::rlimit(100)]
    pub fn get_missing_blocks(&mut self, hash: &Vec<u8>) -> (r: Vec<Vec<u8>>)
        requires
            old(self).wf(),
            old(self).next_id < u64::MAX,
        ensures
            final(self).wf(),
            final(self).has_hash(hash@),
            forall|h2: Seq<u8>|
                #[trigger] final(self).has_hash(h2) <==> old(self).has_hash(h2) || h2 == hash@,
            forall|h2: Seq<u8>|
                old(self).has_hash(h2) ==> final(self).hash_to_id(h2) == old(self).hash_to_id(h2),
            final(self).refs@ == old(self).refs@,
            final(self).blocks@ == old(self).blocks@,
            final(self).aliases@ == old(self).aliases@,
            final(self).pins@ == old(self).pins@,
            final(self).stats == old(self).stats,
            old(self).next_id <= final(self).next_id <= old(self).next_id + 1,
            forall|a: int, b: int| 0 <= a < b < r@.len() ==> r@[a]@ != r@[b]@,
            ({
                let root = final(self).hash_to_id(hash@);
                &&& forall|a: int|
                    0 <= a < r@.len() ==> final(self).has_hash(#[trigger] r@[a]@)
                        && final(self).can_reach(root, final(self).hash_to_id(r@[a]@))
                        && !final(self).has_block_id(final(self).hash_to_id(r@[a]@))
                &&& forall|x: u64|
                    #[trigger] final(self).can_reach(root, x) && !final(self).has_block_id(x)
                        ==> exists|a: int| 0 <= a < r@.len() && r@[a]@ == final(self).id_to_hash(x)
            }),
    {
        let root = self.get_or_create_id(hash);
        let mut seeds: Vec<u64> = Vec::new();
        seeds.push(root);
        let ids = self.closure_from(&seeds, false);
        let mut miss: Vec<u64> = Vec::new();
        let mut a: usize = 0;
        while a < ids.len()
            invariant
                self.wf(),
                seeds@.len() == 1,
                seeds@[0] == root,
                self.has_id(root),
                forall|b: int| 0 <= b < ids@.len() ==> self.has_id(#[trigger] ids@[b]),
                forall|x: u64| #[trigger] self.seed_reaches(false, seeds@, x) ==> ids@.contains(x),
                forall|x: u64| #[trigger] ids@.contains(x) ==> self.seed_reaches(false, seeds@, x),
                0 <= a <= ids@.len(),
                ids@.no_duplicates(),
                miss@.no_duplicates(),
                forall|b: int|
                    0 <= b < miss@.len() ==> ids@.take(a as int).contains(#[trigger] miss@[b]),
                forall|b: int|
                    0 <= b < miss@.len() ==> self.has_id(#[trigger] miss@[b]) && self.seed_reaches(
                        false,
                        seeds@,
                        miss@[b],
                    ) && !self.has_block_id(miss@[b]),
                forall|b: int|
                    0 <= b < a && !self.has_block_id(#[trigger] ids@[b]) ==> miss@.contains(
                        ids@[b],
                    ),
            decreases ids@.len() - a,
        {
            let ghost mpre = miss@;
            if !self.has_block_for_id(ids[a]) {
                proof {
                    assert(!miss@.contains(ids@[a as int])) by {
                        if miss@.contains(ids@[a as int]) {
                            let b = choose|b: int|
                                0 <= b < miss@.len() && miss@[b] == ids@[a as int];
                            let f = choose|f: int|
                                0 <= f < ids@.take(a as int).len() && ids@.take(a as int)[f]
                                    == miss@[b];
                            assert(ids@[f] == ids@[a as int]);
                        }
                    }
                }
                miss.push(ids[a]);
                proof {
                    assert(miss@[miss@.len() - 1] == ids@[a as int]);
                    assert(ids@.contains(ids@[a as int]));
                    assert forall|b: int|
                        0 <= b < a + 1 && !self.has_block_id(#[trigger] ids@[b])
                            implies miss@.contains(ids@[b]) by {
                        if b < a {
                            lemma_push_contains(mpre, ids@[a as int], ids@[b]);
                        }
                    }
                    assert forall|b: int| 0 <= b < miss@.len() implies ids@.take(a + 1).contains(
                        #[trigger] miss@[b],
                    ) by {
                        if b < miss@.len() - 1 {
                            let f = choose|f: int|
                                0 <= f < ids@.take(a as int).len() && ids@.take(a as int)[f]
                                    == miss@[b];
                            assert(ids@.take(a + 1)[f] == miss@[b]);
                        } else {
                            assert(ids@.take(a + 1)[a as int] == miss@[b]);
                        }
                    }
                }
            } else {
                proof {
                    assert forall|b: int| 0 <= b < miss@.len() implies ids@.take(a + 1).contains(
                        #[trigger] miss@[b],
                    ) by {
                        let f = choose|f: int|
                            0 <= f < ids@.take(a as int).len() && ids@.take(a as int)[f]
                                == miss@[b];
                        assert(ids@.take(a + 1)[f] == miss@[b]);
                    }
                }
            }
            a += 1;
        }
        let out = self.hashes_of_ids(&miss);
        proof {
            assert forall|b: int|
                0 <= b < out@.len() implies self.has_hash(#[trigger] out@[b]@) && self.can_reach(
                root,
                self.hash_to_id(out@[b]@),
            ) && !self.has_block_id(self.hash_to_id(out@[b]@)) by {
                let k = choose|k: int|
                    0 <= k < seeds@.len() && self.reaches(false, seeds@[k], miss@[b]);
                let ci = choose|ci: int|
                    0 <= ci < self.cids@.len() && self.cids@[ci].id == miss@[b];
                self.lemma_row_hash(ci);
                self.lemma_row_id(ci);
                assert(out@[b]@ == self.cids@[ci].hash@);
            }
            assert forall|x: u64|
                #[trigger] self.can_reach(root, x) && !self.has_block_id(x) implies exists|a2: int|
                    0 <= a2 < out@.len() && out@[a2]@ == self.id_to_hash(x) by {
                assert(self.reaches(false, seeds@[0], x));
                assert(self.seed_reaches(false, seeds@, x));
                assert(ids@.contains(x));
                let b = choose|b: int| 0 <= b < ids@.len() && ids@[b] == x;
                assert(miss@.contains(x));
                let a2 = choose|a2: int| 0 <= a2 < miss@.len() && miss@[a2] == x;
                assert(out@[a2]@ == self.id_to_hash(x));
            }
            assert forall|a2: int, b2: int| 0 <= a2 < b2 < out@.len() implies out@[a2]@
                != out@[b2]@ by {
                self.lemma_id_to_hash_injective(miss@[a2], miss@[b2]);
            }
        }
        out
    }

    /// The names of all durable aliases whose target is an ancestor of
    /// this hash (the hash itself included), each name once; empty if the
    /// hash is not interned. Ancestors without an alias contribute no
    /// entry: the engine-level placeholder rows that callers were expected
    /// to filter out are already filtered here.
    #[verifier::rlimit(100)]
    pub fn reverse_alias(&self, hash: &Vec<u8>) -> (r: Vec<Vec<u8>>)
        requires
            self.wf(),
        ensures
            !self.has_hash(hash@) ==> r@.len() == 0,
            self.has_hash(hash@) ==> {
                let root = self.hash_to_id(hash@);
                &&& forall|a: int|
                    0 <= a < r@.len() ==> self.alias_to_ancestor(#[trigger] r@[a]@, root)
                &&& forall|n2: Seq<u8>, y: u64|
                    #[trigger] self.is_alias(n2, y) && self.can_reach(y, root) ==> exists|a: int|
                        0 <= a < r@.len() && r@[a]@ == n2
            },
            forall|a: int, b: int| 0 <= a < b < r@.len() ==> r@[a]@ != r@[b]@,
    {
        let found = self.get_id(hash);
        match found {
            None => Vec::new(),
            Some(root) => {
                let mut seeds: Vec<u64> = Vec::new();
                seeds.push(root);
                let anc = self.closure_from(&seeds, true);
                let mut out: Vec<Vec<u8>> = Vec::new();
                let mut a: usize = 0;
                while a < self.aliases.len()
                    invariant
                        self.wf(),
                        seeds@.len() == 1,
                        seeds@[0] == root,
                        self.has_id(root),
                        forall|x: u64|
                            #[trigger] self.seed_reaches(true, seeds@, x) ==> anc@.contains(x),
                        forall|x: u64|
                            #[trigger] anc@.contains(x) ==> self.seed_reaches(true, seeds@, x),
                        0 <= a <= self.aliases@.len(),
                        forall|b: int|
                            0 <= b < out@.len() ==> self.alias_to_ancestor(
                                #[trigger] out@[b]@,
                                root,
                            ),
                        forall|b: int|
                            0 <= b < out@.len() ==> self.aliases@.take(a as int).map_values(
                                |r2: crate::rows::AliasRow| r2.name@,
                            ).contains(#[trigger] out@[b]@),
                        forall|b: int, c: int| 0 <= b < c < out@.len() ==> out@[b]@ != out@[c]@,
                        forall|b: int|
                            0 <= b < a && anc@.contains(#[trigger] self.aliases@[b].id)
                                ==> exists|c: int| 0 <= c < out@.len() && out@[c]@
                                == self.aliases@[b].name@,
                    decreases self.aliases@.len() - a,
                {
                    let ghost opre = out@;
                    proof {
                        let mapped = self.aliases@.take(a as int).map_values(
                            |r2: crate::rows::AliasRow| r2.name@,
                        );
                        let mapped1 = self.aliases@.take(a + 1).map_values(
                            |r2: crate::rows::AliasRow| r2.name@,
                        );
                        assert forall|b: int| 0 <= b < out@.len() implies mapped1.contains(
                            #[trigger] out@[b]@,
                        ) by {
                            let f = choose|f: int| 0 <= f < mapped.len() && mapped[f] == out@[b]@;
                            assert(mapped[f] == self.aliases@[f].name@);
                            assert(mapped1[f] == self.aliases@[f].name@);
                        }
                    }
                    if contains_u64(&anc, self.aliases[a].id) {
                        let nm = self.aliases[a].name.clone();
                        proof {
                            assert(nm@ == self.aliases@[a as int].name@);
                        }
                        out.push(nm);
                        proof {
                            let y = self.aliases@[a as int].id;
                            assert(self.is_alias(self.aliases@[a as int].name@, y));
                            assert(self.seed_reaches(true, seeds@, y));
                            let k = choose|k: int|
                                0 <= k < seeds@.len() && self.reaches(true, seeds@[k], y);
                            self.lemma_reach_flip(true, root, y);
                            assert(self.can_reach(y, root));
                            assert(out@[out@.len() - 1]@ == self.aliases@[a as int].name@);
                            assert forall|b: int| 0 <= b < out@.len() implies self.alias_to_ancestor(
                                #[trigger] out@[b]@,
                                root,
                            ) by {
                                if b < opre.len() {
                                    assert(out@[b] == opre[b]);
                                } else {
                                    assert(out@[b]@ == self.aliases@[a as int].name@);
                                    assert(self.is_alias(out@[b]@, y) && self.can_reach(y, root));
                                }
                            }
                            assert forall|b: int|
                                0 <= b < a + 1 && anc@.contains(#[trigger] self.aliases@[b].id)
                                    implies exists|c: int|
                                    0 <= c < out@.len() && out@[c]@
                                        == self.aliases@[b].name@ by {
                                if b < a {
                                    let c = choose|c: int|
                                        0 <= c < opre.len() && opre[c]@ == self.aliases@[b].name@;
                                    assert(out@[c]@ == self.aliases@[b].name@);
                                } else {
                                    assert(out@[out@.len() - 1]@ == self.aliases@[b].name@);
                                }
                            }
                            let mapped = self.aliases@.take(a as int).map_values(
                                |r2: crate::rows::AliasRow| r2.name@,
                            );
                            let mapped1 = self.aliases@.take(a + 1).map_values(
                                |r2: crate::rows::AliasRow| r2.name@,
                            );
                            assert forall|b: int| 0 <= b < out@.len() implies mapped1.contains(
                                #[trigger] out@[b]@,
                            ) by {
                                if b < out@.len() - 1 {
                                    let f = choose|f: int|
                                        0 <= f < mapped.len() && mapped[f] == out@[b]@;
                                    assert(mapped1[f] == self.aliases@[f].name@);
                                    assert(mapped[f] == self.aliases@[f].name@);
                                } else {
                                    assert(mapped1[a as int] == self.aliases@[a as int].name@);
                                }
                            }
                            assert forall|b: int, c: int|
                                0 <= b < c < out@.len() implies out@[b]@ != out@[c]@ by {
                                if c == out@.len() - 1 {
                                    let f = choose|f: int|
                                        0 <= f < mapped.len() && mapped[f] == out@[b]@;
                                    assert(mapped[f] == self.aliases@[f].name@);
                                    assert(self.aliases@[f].name@
                                        != self.aliases@[a as int].name@);
                                }
                            }
                        }
                    }
                    a += 1;
                }
                proof {
                    assert forall|n2: Seq<u8>, y: u64|
                        #[trigger] self.is_alias(n2, y) && self.can_reach(y, root)
                            implies exists|c: int| 0 <= c < out@.len() && out@[c]@ == n2 by {
                        let b = choose|b: int|
                            0 <= b < self.aliases@.len() && self.aliases@[b].name@ == n2
                                && self.aliases@[b].id == y;
                        self.lemma_reach_flip(false, y, root);
                        assert(self.reaches(true, seeds@[0], y));
                        assert(self.seed_reaches(true, seeds@, y));
                        assert(anc@.contains(self.aliases@[b].id));
                    }
                }
                out
            },
        }
    }
}

} // verus!
