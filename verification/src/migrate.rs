//! Migration of the legacy flat layout: each legacy row holds a content
//! hash and an encoded payload; the payload is decoded to recover its
//! links, and the block is re-ingested through the normal path into a
//! fresh store. Decoding is the one place where block-format knowledge
//! enters the core, and it stays behind one trusted call.

use vstd::prelude::*;

use crate::rows::StoreError;
use crate::store::Store;

verus! {

/// A row of the legacy flat table: a content hash and its encoded payload.
pub struct LegacyRow {
    pub hash: Vec<u8>,
    pub payload: Vec<u8>,
}

/// The links encoded in a block, as the block format defines them: a
/// function of the hash and payload bytes alone, or nothing if the bytes
/// do not decode under the codec the hash names.
pub uninterp spec fn links_of(hash: Seq<u8>, payload: Seq<u8>) -> Option<Seq<Seq<u8>>>;

/// Whether no earlier row carries the same hash: the row that stores the
/// payload and the links for its hash.
pub open spec fn first_occurrence(legacy: Seq<LegacyRow>, i: int) -> bool {
    forall|j: int| 0 <= j < i ==> legacy[j].hash@ != legacy[i].hash@
}

/// The decoded links of one row, for rows that decode.
pub open spec fn row_links(legacy: Seq<LegacyRow>, i: int) -> Seq<Seq<u8>> {
    match links_of(legacy[i].hash@, legacy[i].payload@) {
        Some(l) => l,
        None => Seq::empty(),
    }
}

/// An over-approximation of the identifiers a migration interns: one per
/// row plus one per decoded link.
pub open spec fn migration_ids_bound(legacy: Seq<LegacyRow>) -> nat
    decreases legacy.len(),
{
    if legacy.len() == 0 {
        0
    } else {
        migration_ids_bound(legacy.drop_last()) + 1 + row_links(legacy, legacy.len() - 1).len()
    }
}

/// The total payload bytes of the legacy rows.
pub open spec fn migration_bytes_bound(legacy: Seq<LegacyRow>) -> nat
    decreases legacy.len(),
{
    if legacy.len() == 0 {
        0
    } else {
        migration_bytes_bound(legacy.drop_last()) + legacy.last().payload@.len()
    }
}

/// The bounds over a prefix never exceed the bounds over all rows.
proof fn lemma_migration_bounds_take_le(legacy: Seq<LegacyRow>, k: int)
    requires
        0 <= k <= legacy.len(),
    ensures
        migration_ids_bound(legacy.take(k)) <= migration_ids_bound(legacy),
        migration_bytes_bound(legacy.take(k)) <= migration_bytes_bound(legacy),
    decreases legacy.len() - k,
{
    if k == legacy.len() {
        assert(legacy.take(k) =~= legacy);
    } else {
        lemma_migration_bounds_take_le(legacy, k + 1);
        assert(legacy.take(k + 1).drop_last() =~= legacy.take(k));
        assert(legacy.take(k + 1).last() == legacy[k]);
        assert(row_links(legacy.take(k + 1), k) == row_links(legacy, k));
    }
}

/// Hash `h` is interned by migrating the first `i` rows: it is a row's
/// own hash, or a decoded link of the first row of its hash.
pub open spec fn hash_from_rows(legacy: Seq<LegacyRow>, i: int, h: Seq<u8>) -> bool {
    exists|j: int|
        0 <= j < i && ((#[trigger] legacy[j]).hash@ == h || (first_occurrence(legacy, j)
            && row_links(legacy, j).contains(h)))
}

/// Some row before position `i` carries hash `h`.
pub open spec fn row_hash_before(legacy: Seq<LegacyRow>, i: int, h: Seq<u8>) -> bool {
    exists|j: int| 0 <= j < i && legacy[j].hash@ == h
}

/// `c` is the identifier interned for one of the given link hashes.
pub open spec fn edge_matches_links(s: Store, links: Seq<Seq<u8>>, c: u64) -> bool {
    exists|k: int| 0 <= k < links.len() && s.has_hash(links[k]) && c == s.hash_to_id(links[k])
}

/// The view of a decoded link list.
pub open spec fn links_view(r: Option<Vec<Vec<u8>>>) -> Option<Seq<Seq<u8>>> {
    match r {
        Some(v) => Some(v@.map_values(|l: Vec<u8>| l@)),
        None => None,
    }
}

/// Relies on libipld: `Cid::try_from` to parse the hash bytes,
/// `Block::<DefaultParams>::new` to check the payload against the hash,
/// and `Block::references` to extract the linked content hashes. The
/// result depends on the two byte strings alone, and the links come out
/// sorted and deduplicated.
#[verifier::external_body]
fn decode_links(hash: &Vec<u8>, payload: &Vec<u8>) -> (r: Option<Vec<Vec<u8>>>)
    ensures
        links_view(r) == links_of(hash@, payload@),
{
    let cid = libipld::Cid::try_from(&hash[..]).ok()?;
    let block = libipld::Block::<libipld::DefaultParams>::new(cid, payload.clone()).ok()?;
    let mut set = std::collections::BTreeSet::new();
    block.references(&mut set).ok()?;
    Some(set.into_iter().map(|c| c.to_bytes()).collect())
}

/// The migration invariants carry over a repeat ingest: a row whose hash
/// already has a stored payload changes no table.
#[verifier::rlimit(100)]
#[verifier::spinoff_prover]
proof fn lemma_migrate_dup_step(legacy: Seq<LegacyRow>, i: int, spre: Store, s: Store)
    requires
        0 <= i < legacy.len(),
        spre.wf(),
        s.wf(),
        spre.has_block_hash(legacy[i].hash@),
        spre.cids@ == s.cids@,
        spre.refs@ == s.refs@,
        spre.blocks@ == s.blocks@,
        forall|b: u64| #[trigger] spre.has_block_id(b) ==> spre.has_id(b),
        forall|p: u64, c: u64| #[trigger] spre.has_edge(p, c) ==> spre.has_block_id(p),
        forall|j: int| 0 <= j < i ==> spre.has_block_hash((#[trigger] legacy[j]).hash@),
        forall|h: Seq<u8>| #[trigger] spre.has_block_hash(h) ==> row_hash_before(legacy, i, h),
        forall|j: int, k: int|
            0 <= j < i && first_occurrence(legacy, j) && 0 <= k < row_links(legacy, j).len()
                ==> spre.has_hash(#[trigger] row_links(legacy, j)[k]),
        forall|j: int|
            0 <= j < i && first_occurrence(legacy, j) ==> spre.payload_of(
                spre.hash_to_id((#[trigger] legacy[j]).hash@),
            ) == legacy[j].payload@,
        forall|j: int, c: u64|
            0 <= j < i && first_occurrence(legacy, j) ==> (#[trigger] spre.has_edge(
                spre.hash_to_id(legacy[j].hash@),
                c,
            ) <==> edge_matches_links(spre, row_links(legacy, j), c)),
        forall|h: Seq<u8>| #[trigger] spre.has_hash(h) <==> hash_from_rows(legacy, i, h),
    ensures
        forall|b: u64| #[trigger] s.has_block_id(b) ==> s.has_id(b),
        forall|p: u64, c: u64| #[trigger] s.has_edge(p, c) ==> s.has_block_id(p),
        forall|j: int| 0 <= j < i + 1 ==> s.has_block_hash((#[trigger] legacy[j]).hash@),
        forall|h: Seq<u8>| #[trigger] s.has_block_hash(h) ==> row_hash_before(legacy, i + 1, h),
        forall|j: int, k: int|
            0 <= j < i + 1 && first_occurrence(legacy, j) && 0 <= k < row_links(legacy, j).len()
                ==> s.has_hash(#[trigger] row_links(legacy, j)[k]),
        forall|j: int|
            0 <= j < i + 1 && first_occurrence(legacy, j) ==> s.payload_of(
                s.hash_to_id((#[trigger] legacy[j]).hash@),
            ) == legacy[j].payload@,
        forall|j: int, c: u64|
            0 <= j < i + 1 && first_occurrence(legacy, j) ==> (#[trigger] s.has_edge(
                s.hash_to_id(legacy[j].hash@),
                c,
            ) <==> edge_matches_links(s, row_links(legacy, j), c)),
        forall|h: Seq<u8>| #[trigger] s.has_hash(h) <==> hash_from_rows(legacy, i + 1, h),
{
    crate::store::lemma_same_cids_maps(spre, s);
    crate::store::lemma_same_refs_edges(spre, s);
    crate::store::lemma_same_blocks(spre, s);
    assert(!first_occurrence(legacy, i)) by {
        assert(row_hash_before(legacy, i, legacy[i].hash@));
        let j0 = choose|j0: int| 0 <= j0 < i && legacy[j0].hash@ == legacy[i].hash@;
    }
    assert forall|j: int, k: int|
        0 <= j < i + 1 && first_occurrence(legacy, j) && 0 <= k < row_links(legacy, j).len()
            implies s.has_hash(#[trigger] row_links(legacy, j)[k]) by {
        assert(j < i);
        assert(spre.has_hash(row_links(legacy, j)[k]));
    }
    assert forall|b: u64| #[trigger] s.has_block_id(b) implies s.has_id(b) by {
        assert(spre.has_block_id(b));
        assert(spre.has_id(b));
    }
    assert forall|p: u64, c: u64| #[trigger] s.has_edge(p, c) implies s.has_block_id(p) by {
        assert(spre.has_edge(p, c));
        assert(spre.has_block_id(p));
    }
    assert forall|h: Seq<u8>| #[trigger] s.has_block_hash(h) implies row_hash_before(
        legacy,
        i + 1,
        h,
    ) by {
        assert(spre.has_block_hash(h));
        let j0 = choose|j0: int| 0 <= j0 < i && legacy[j0].hash@ == h;
    }
    assert forall|j: int| 0 <= j < i + 1 implies s.has_block_hash(
        (#[trigger] legacy[j]).hash@,
    ) by {
        if j < i {
            assert(spre.has_block_hash(legacy[j].hash@));
        } else {
            assert(spre.has_block_hash(legacy[i].hash@));
        }
        assert(s.hash_to_id(legacy[j].hash@) == spre.hash_to_id(legacy[j].hash@));
    }
    assert forall|j: int|
        0 <= j < i + 1 && first_occurrence(legacy, j) implies s.payload_of(
        s.hash_to_id((#[trigger] legacy[j]).hash@),
    ) == legacy[j].payload@ by {
        if j < i {
            assert(s.hash_to_id(legacy[j].hash@) == spre.hash_to_id(legacy[j].hash@));
            assert(spre.has_block_id(spre.hash_to_id(legacy[j].hash@)));
        } else {
            let j0 = choose|j0: int| 0 <= j0 < i && legacy[j0].hash@ == legacy[i].hash@;
        }
    }
    assert forall|j: int, c: u64|
        0 <= j < i + 1 && first_occurrence(legacy, j) implies (#[trigger] s.has_edge(
        s.hash_to_id(legacy[j].hash@),
        c,
    ) <==> edge_matches_links(s, row_links(legacy, j), c)) by {
        if j < i {
            let idj = spre.hash_to_id(legacy[j].hash@);
            assert(s.hash_to_id(legacy[j].hash@) == idj);
            assert(s.has_edge(idj, c) == spre.has_edge(idj, c));
            assert(edge_matches_links(s, row_links(legacy, j), c) == edge_matches_links(
                spre,
                row_links(legacy, j),
                c,
            )) by {
                if edge_matches_links(s, row_links(legacy, j), c) {
                    let k = choose|k: int|
                        0 <= k < row_links(legacy, j).len() && s.has_hash(
                            row_links(legacy, j)[k],
                        ) && c == s.hash_to_id(row_links(legacy, j)[k]);
                    assert(spre.has_hash(row_links(legacy, j)[k]));
                    assert(spre.hash_to_id(row_links(legacy, j)[k]) == s.hash_to_id(
                        row_links(legacy, j)[k],
                    ));
                }
                if edge_matches_links(spre, row_links(legacy, j), c) {
                    let k = choose|k: int|
                        0 <= k < row_links(legacy, j).len() && spre.has_hash(
                            row_links(legacy, j)[k],
                        ) && c == spre.hash_to_id(row_links(legacy, j)[k]);
                    assert(s.has_hash(row_links(legacy, j)[k]));
                    assert(spre.hash_to_id(row_links(legacy, j)[k]) == s.hash_to_id(
                        row_links(legacy, j)[k],
                    ));
                }
            }
        } else {
            let j0 = choose|j0: int| 0 <= j0 < i && legacy[j0].hash@ == legacy[i].hash@;
        }
    }
    assert forall|h: Seq<u8>| #[trigger] s.has_hash(h) == hash_from_rows(legacy, i + 1, h) by {
        if s.has_hash(h) {
            assert(spre.has_hash(h));
            assert(hash_from_rows(legacy, i, h));
            let j0 = choose|j0: int|
                0 <= j0 < i && (legacy[j0].hash@ == h || (first_occurrence(legacy, j0)
                    && row_links(legacy, j0).contains(h)));
            assert(hash_from_rows(legacy, i + 1, h));
        }
        if hash_from_rows(legacy, i + 1, h) {
            let j0 = choose|j0: int|
                0 <= j0 < i + 1 && ((#[trigger] legacy[j0]).hash@ == h || (first_occurrence(
                    legacy,
                    j0,
                ) && row_links(legacy, j0).contains(h)));
            if j0 < i {
                assert(hash_from_rows(legacy, i, h));
                assert(spre.has_hash(h));
            } else {
                assert(h == legacy[i].hash@);
                assert(spre.has_hash(h));
            }
            assert(s.has_hash(h));
        }
    }
}

/// The migration invariants advance over a fresh ingest: the row's
/// payload is stored and its edges are exactly its decoded links.
#[verifier::rlimit(100)]
#[verifier::spinoff_prover]
proof fn lemma_migrate_fresh_step(
    legacy: Seq<LegacyRow>,
    i: int,
    spre: Store,
    s: Store,
    lseq: Seq<Seq<u8>>,
    id: u64,
)
    requires
        0 <= i < legacy.len(),
        spre.wf(),
        s.wf(),
        !spre.has_block_hash(legacy[i].hash@),
        links_of(legacy[i].hash@, legacy[i].payload@) == Some(lseq),
        s.has_hash(legacy[i].hash@),
        id == s.hash_to_id(legacy[i].hash@),
        s.has_block_id(id),
        s.payload_of(id) == legacy[i].payload@,
        forall|h2: Seq<u8>|
            spre.has_hash(h2) ==> s.has_hash(h2) && #[trigger] s.hash_to_id(h2)
                == spre.hash_to_id(h2),
        forall|x: u64| spre.has_id(x) ==> s.has_id(x),
        forall|b: u64|
            spre.has_block_id(b) ==> s.has_block_id(b) && #[trigger] s.payload_of(b)
                == spre.payload_of(b),
        forall|b: u64| #[trigger] s.has_block_id(b) <==> spre.has_block_id(b) || b == id,
        forall|h2: Seq<u8>|
            #[trigger] s.has_hash(h2) <==> spre.has_hash(h2) || h2 == legacy[i].hash@
                || lseq.contains(h2),
        forall|p: u64, c: u64|
            #[trigger] s.has_edge(p, c) <==> spre.has_edge(p, c) || (p == id && exists|k: int|
                0 <= k < lseq.len() && c == s.hash_to_id(lseq[k])),
        forall|b: u64| #[trigger] spre.has_block_id(b) ==> spre.has_id(b),
        forall|p: u64, c: u64| #[trigger] spre.has_edge(p, c) ==> spre.has_block_id(p),
        forall|j: int| 0 <= j < i ==> spre.has_block_hash((#[trigger] legacy[j]).hash@),
        forall|h: Seq<u8>| #[trigger] spre.has_block_hash(h) ==> row_hash_before(legacy, i, h),
        forall|j: int, k: int|
            0 <= j < i && first_occurrence(legacy, j) && 0 <= k < row_links(legacy, j).len()
                ==> spre.has_hash(#[trigger] row_links(legacy, j)[k]),
        forall|j: int|
            0 <= j < i && first_occurrence(legacy, j) ==> spre.payload_of(
                spre.hash_to_id((#[trigger] legacy[j]).hash@),
            ) == legacy[j].payload@,
        forall|j: int, c: u64|
            0 <= j < i && first_occurrence(legacy, j) ==> (#[trigger] spre.has_edge(
                spre.hash_to_id(legacy[j].hash@),
                c,
            ) <==> edge_matches_links(spre, row_links(legacy, j), c)),
        forall|h: Seq<u8>| #[trigger] spre.has_hash(h) <==> hash_from_rows(legacy, i, h),
    ensures
        forall|b: u64| #[trigger] s.has_block_id(b) ==> s.has_id(b),
        forall|p: u64, c: u64| #[trigger] s.has_edge(p, c) ==> s.has_block_id(p),
        forall|j: int| 0 <= j < i + 1 ==> s.has_block_hash((#[trigger] legacy[j]).hash@),
        forall|h: Seq<u8>| #[trigger] s.has_block_hash(h) ==> row_hash_before(legacy, i + 1, h),
        forall|j: int, k: int|
            0 <= j < i + 1 && first_occurrence(legacy, j) && 0 <= k < row_links(legacy, j).len()
                ==> s.has_hash(#[trigger] row_links(legacy, j)[k]),
        forall|j: int|
            0 <= j < i + 1 && first_occurrence(legacy, j) ==> s.payload_of(
                s.hash_to_id((#[trigger] legacy[j]).hash@),
            ) == legacy[j].payload@,
        forall|j: int, c: u64|
            0 <= j < i + 1 && first_occurrence(legacy, j) ==> (#[trigger] s.has_edge(
                s.hash_to_id(legacy[j].hash@),
                c,
            ) <==> edge_matches_links(s, row_links(legacy, j), c)),
        forall|h: Seq<u8>| #[trigger] s.has_hash(h) <==> hash_from_rows(legacy, i + 1, h),
{
    let hi = legacy[i].hash@;
    assert(row_links(legacy, i) == lseq);
    // no edges left the row's identifier before this ingest
    assert forall|c: u64| !(#[trigger] spre.has_edge(id, c)) by {
        if spre.has_edge(id, c) {
            assert(spre.has_block_id(id));
            assert(spre.has_id(id));
            let rx = choose|rx: int| 0 <= rx < spre.cids@.len() && spre.cids@[rx].id == id;
            spre.lemma_row_hash(rx);
            spre.lemma_row_id(rx);
            let h2 = spre.cids@[rx].hash@;
            assert(s.has_hash(h2) && s.hash_to_id(h2) == id);
            if h2 == hi {
                assert(spre.has_block_hash(hi));
            } else {
                s.lemma_hash_to_id_injective(h2, hi);
            }
        }
    }
    assert(first_occurrence(legacy, i)) by {
        if !first_occurrence(legacy, i) {
            let j0 = choose|j0: int| 0 <= j0 < i && legacy[j0].hash@ == legacy[i].hash@;
            assert(spre.has_block_hash(hi));
        }
    }
    assert forall|b: u64| #[trigger] s.has_block_id(b) implies s.has_id(b) by {
        if b != id {
            assert(spre.has_block_id(b));
            assert(spre.has_id(b));
        }
    }
    assert forall|p: u64, c: u64| #[trigger] s.has_edge(p, c) implies s.has_block_id(p) by {
        if spre.has_edge(p, c) {
            assert(spre.has_block_id(p));
        } else {
            assert(p == id);
        }
    }
    assert forall|h: Seq<u8>| #[trigger] s.has_block_hash(h) implies row_hash_before(
        legacy,
        i + 1,
        h,
    ) by {
        let x = s.hash_to_id(h);
        assert(s.has_block_id(x));
        if x == id {
            if h != hi {
                s.lemma_hash_to_id_injective(h, hi);
            }
            assert(legacy[i].hash@ == h);
        } else {
            assert(spre.has_block_id(x));
            assert(spre.has_id(x));
            let rx = choose|rx: int| 0 <= rx < spre.cids@.len() && spre.cids@[rx].id == x;
            spre.lemma_row_hash(rx);
            spre.lemma_row_id(rx);
            let h2 = spre.cids@[rx].hash@;
            assert(s.has_hash(h2) && s.hash_to_id(h2) == x);
            if h2 != h {
                s.lemma_hash_to_id_injective(h2, h);
            }
            assert(spre.has_block_hash(h));
            let j0 = choose|j0: int| 0 <= j0 < i && legacy[j0].hash@ == h;
        }
    }
    assert forall|j: int, k: int|
        0 <= j < i + 1 && first_occurrence(legacy, j) && 0 <= k < row_links(legacy, j).len()
            implies s.has_hash(#[trigger] row_links(legacy, j)[k]) by {
        if j < i {
            assert(spre.has_hash(row_links(legacy, j)[k]));
        } else {
            assert(lseq.contains(lseq[k]));
        }
    }
    assert forall|j: int| 0 <= j < i + 1 implies s.has_block_hash(
        (#[trigger] legacy[j]).hash@,
    ) by {
        if j < i {
            assert(spre.has_block_hash(legacy[j].hash@));
            assert(s.hash_to_id(legacy[j].hash@) == spre.hash_to_id(legacy[j].hash@));
            assert(s.has_block_id(spre.hash_to_id(legacy[j].hash@)));
        }
    }
    assert forall|j: int|
        0 <= j < i + 1 && first_occurrence(legacy, j) implies s.payload_of(
        s.hash_to_id((#[trigger] legacy[j]).hash@),
    ) == legacy[j].payload@ by {
        if j < i {
            assert(s.hash_to_id(legacy[j].hash@) == spre.hash_to_id(legacy[j].hash@));
            assert(spre.has_block_id(spre.hash_to_id(legacy[j].hash@)));
        }
    }
    assert forall|j: int, c: u64|
        0 <= j < i + 1 && first_occurrence(legacy, j) implies (#[trigger] s.has_edge(
        s.hash_to_id(legacy[j].hash@),
        c,
    ) <==> edge_matches_links(s, row_links(legacy, j), c)) by {
        if j < i {
            let hj = legacy[j].hash@;
            let idj = spre.hash_to_id(hj);
            assert(s.hash_to_id(hj) == idj);
            assert(hj != hi) by {
                if hj == hi {
                    assert(spre.has_block_hash(hi));
                }
            }
            assert(idj != id) by {
                s.lemma_hash_to_id_injective(hj, hi);
            }
            assert(s.has_edge(idj, c) == spre.has_edge(idj, c));
            assert(edge_matches_links(s, row_links(legacy, j), c) == edge_matches_links(
                spre,
                row_links(legacy, j),
                c,
            )) by {
                if edge_matches_links(s, row_links(legacy, j), c) {
                    let k = choose|k: int|
                        0 <= k < row_links(legacy, j).len() && s.has_hash(
                            row_links(legacy, j)[k],
                        ) && c == s.hash_to_id(row_links(legacy, j)[k]);
                    assert(spre.has_hash(row_links(legacy, j)[k]));
                    assert(c == spre.hash_to_id(row_links(legacy, j)[k]));
                }
                if edge_matches_links(spre, row_links(legacy, j), c) {
                    let k = choose|k: int|
                        0 <= k < row_links(legacy, j).len() && spre.has_hash(
                            row_links(legacy, j)[k],
                        ) && c == spre.hash_to_id(row_links(legacy, j)[k]);
                    assert(s.has_hash(row_links(legacy, j)[k]) && c == s.hash_to_id(
                        row_links(legacy, j)[k],
                    ));
                }
            }
        } else {
            assert(s.hash_to_id(legacy[j].hash@) == id);
            assert(edge_matches_links(s, row_links(legacy, j), c) == (exists|k: int|
                0 <= k < lseq.len() && c == s.hash_to_id(lseq[k]))) by {
                if exists|k: int| 0 <= k < lseq.len() && c == s.hash_to_id(lseq[k]) {
                    let k = choose|k: int| 0 <= k < lseq.len() && c == s.hash_to_id(lseq[k]);
                    assert(lseq.contains(lseq[k]));
                    assert(s.has_hash(lseq[k]));
                }
            }
        }
    }
    assert forall|h: Seq<u8>| #[trigger] s.has_hash(h) == hash_from_rows(legacy, i + 1, h) by {
        if s.has_hash(h) {
            if spre.has_hash(h) {
                assert(hash_from_rows(legacy, i, h));
                let j0 = choose|j0: int|
                    0 <= j0 < i && ((#[trigger] legacy[j0]).hash@ == h || (first_occurrence(
                        legacy,
                        j0,
                    ) && row_links(legacy, j0).contains(h)));
                assert(hash_from_rows(legacy, i + 1, h));
            } else if h == hi {
                assert(legacy[i].hash@ == h);
                assert(hash_from_rows(legacy, i + 1, h));
            } else {
                assert(lseq.contains(h));
                assert(first_occurrence(legacy, i) && row_links(legacy, i).contains(h));
                assert(hash_from_rows(legacy, i + 1, h));
            }
        }
        if hash_from_rows(legacy, i + 1, h) {
            let j0 = choose|j0: int|
                0 <= j0 < i + 1 && ((#[trigger] legacy[j0]).hash@ == h || (first_occurrence(
                    legacy,
                    j0,
                ) && row_links(legacy, j0).contains(h)));
            if j0 < i {
                assert(hash_from_rows(legacy, i, h));
                assert(spre.has_hash(h));
            } else {
                if legacy[j0].hash@ == h {
                    assert(h == hi);
                } else {
                    assert(row_links(legacy, i).contains(h));
                    assert(lseq.contains(h));
                }
            }
            assert(s.has_hash(h));
        }
    }
}

/// Rebuild a fresh store from the legacy rows: each row's payload is
/// decoded to recover its links and ingested through the normal path, in
/// order. A row that does not decode fails the whole migration; running
/// out of identifier or counter space does too, and if neither can happen
/// (every row decodes, and the row, link and byte counts stay within the
/// 64-bit space) the migration succeeds. On success the store holds, for
/// the first row of each hash, exactly that row's payload and one edge
/// per decoded link, and no transient pin exists: the same state that
/// ingesting the rows through `put_block` yields.
#[verifier::rlimit(100)]
#[verifier::spinoff_prover]
pub fn migrate_v0_v1(legacy: &Vec<LegacyRow>) -> (r: Result<Store, StoreError>)
    ensures
        match r {
            Ok(s) => {
                &&& s.wf()
                &&& s.pins@.len() == 0
                &&& forall|i: int|
                    0 <= i < legacy@.len() ==> links_of(
                        (#[trigger] legacy@[i]).hash@,
                        legacy@[i].payload@,
                    ) is Some
                &&& forall|i: int|
                    0 <= i < legacy@.len() ==> s.has_block_hash((#[trigger] legacy@[i]).hash@)
                &&& forall|i: int|
                    0 <= i < legacy@.len() && first_occurrence(legacy@, i) ==> s.payload_of(
                        s.hash_to_id((#[trigger] legacy@[i]).hash@),
                    ) == legacy@[i].payload@
                &&& forall|i: int, c: u64|
                    0 <= i < legacy@.len() && first_occurrence(legacy@, i) ==> (#[trigger] s.has_edge(
                        s.hash_to_id(legacy@[i].hash@),
                        c,
                    ) <==> edge_matches_links(s, row_links(legacy@, i), c))
                &&& forall|h: Seq<u8>|
                    #[trigger] s.has_hash(h) <==> hash_from_rows(legacy@, legacy@.len() as int, h)
            },
            Err(e) => {
                &&& (e == StoreError::UndecodableBlock ==> exists|i: int|
                    0 <= i < legacy@.len() && links_of(
                        (#[trigger] legacy@[i]).hash@,
                        legacy@[i].payload@,
                    ) is None)
                &&& (e == StoreError::UndecodableBlock || e == StoreError::CapacityExceeded)
            },
        },
        ((forall|i: int|
            0 <= i < legacy@.len() ==> links_of(
                (#[trigger] legacy@[i]).hash@,
                legacy@[i].payload@,
            ) is Some) && migration_ids_bound(legacy@) + 1 < u64::MAX && migration_bytes_bound(
            legacy@,
        ) <= u64::MAX && legacy@.len() < u64::MAX) ==> r is Ok,
{
    let mut s = Store::new();
    let mut i: usize = 0;
    while i < legacy.len()
        invariant
            s.wf(),
            s.pins@.len() == 0,
            0 <= i <= legacy@.len(),
            s.next_id <= 1 + migration_ids_bound(legacy@.take(i as int)),
            s.stats.size <= migration_bytes_bound(legacy@.take(i as int)),
            s.stats.count <= i,
            forall|b: u64| #[trigger] s.has_block_id(b) ==> s.has_id(b),
            forall|p: u64, c: u64| #[trigger] s.has_edge(p, c) ==> s.has_block_id(p),
            forall|j: int|
                0 <= j < i ==> links_of((#[trigger] legacy@[j]).hash@, legacy@[j].payload@)
                    is Some,
            forall|j: int| 0 <= j < i ==> s.has_block_hash((#[trigger] legacy@[j]).hash@),
            forall|h: Seq<u8>| #[trigger] s.has_block_hash(h) ==> row_hash_before(legacy@, i as int, h),
            forall|j: int, k: int|
                0 <= j < i && first_occurrence(legacy@, j) && 0 <= k < row_links(
                    legacy@,
                    j,
                ).len() ==> s.has_hash(#[trigger] row_links(legacy@, j)[k]),
            forall|j: int|
                0 <= j < i && first_occurrence(legacy@, j) ==> s.payload_of(
                    s.hash_to_id((#[trigger] legacy@[j]).hash@),
                ) == legacy@[j].payload@,
            forall|j: int, c: u64|
                0 <= j < i && first_occurrence(legacy@, j) ==> (#[trigger] s.has_edge(
                    s.hash_to_id(legacy@[j].hash@),
                    c,
                ) <==> edge_matches_links(s, row_links(legacy@, j), c)),
            forall|h: Seq<u8>| #[trigger] s.has_hash(h) <==> hash_from_rows(legacy@, i as int, h),
        decreases legacy@.len() - i,
    {
        let row = &legacy[i];
        proof {
            assert(legacy@.take(i + 1).drop_last() =~= legacy@.take(i as int));
            assert(legacy@.take(i + 1).last() == legacy@[i as int]);
            assert(row_links(legacy@.take(i + 1), i as int) == row_links(legacy@, i as int));
        }
        let decoded = decode_links(&row.hash, &row.payload);
        match decoded {
            None => {
                proof {
                    assert(links_of(legacy@[i as int].hash@, legacy@[i as int].payload@) is None);
                }
                return Err(StoreError::UndecodableBlock);
            },
            Some(links) => {
                proof {
                    assert(row_links(legacy@, i as int) == links@.map_values(|l: Vec<u8>| l@));
                    assert(row_links(legacy@, i as int).len() == links@.len());
                }
                // identifier and counter space must not run out
                if s.next_id >= u64::MAX - (links.len() as u64) || s.stats.count == u64::MAX
                    || s.stats.size > u64::MAX - (row.payload.len() as u64) {
                    proof {
                        if (forall|j: int|
                            0 <= j < legacy@.len() ==> links_of(
                                (#[trigger] legacy@[j]).hash@,
                                legacy@[j].payload@,
                            ) is Some) && migration_ids_bound(legacy@) + 1 < u64::MAX
                            && migration_bytes_bound(legacy@) <= u64::MAX && legacy@.len()
                            < u64::MAX {
                            lemma_migration_bounds_take_le(legacy@, i + 1);
                            assert(migration_ids_bound(legacy@.take(i + 1))
                                == migration_ids_bound(legacy@.take(i as int)) + 1
                                + links@.len());
                            assert(migration_bytes_bound(legacy@.take(i + 1))
                                == migration_bytes_bound(legacy@.take(i as int))
                                + legacy@[i as int].payload@.len());
                            assert(false);
                        }
                    }
                    return Err(StoreError::CapacityExceeded);
                }
                let ghost spre = s;
                let id = s.put_block(&row.hash, &row.payload, &links);
                proof {
                    let hi = legacy@[i as int].hash@;
                    let lseq = links@.map_values(|l: Vec<u8>| l@);
                    assert(migration_ids_bound(legacy@.take(i + 1))
                        == migration_ids_bound(legacy@.take(i as int)) + 1 + links@.len());
                    assert(migration_bytes_bound(legacy@.take(i + 1))
                        == migration_bytes_bound(legacy@.take(i as int))
                        + legacy@[i as int].payload@.len());
                    assert forall|h2: Seq<u8>| ((exists|k: int|
                        0 <= k < links@.len() && links@[k]@ == h2) == lseq.contains(h2)) by {
                        if exists|k: int| 0 <= k < links@.len() && links@[k]@ == h2 {
                            let k = choose|k: int| 0 <= k < links@.len() && links@[k]@ == h2;
                            assert(lseq[k] == h2);
                        }
                        if lseq.contains(h2) {
                            let k = choose|k: int| 0 <= k < lseq.len() && lseq[k] == h2;
                            assert(links@[k]@ == h2);
                        }
                    }
                    if spre.has_block_hash(hi) {
                        lemma_migrate_dup_step(legacy@, i as int, spre, s);
                    } else {
                        assert forall|h2: Seq<u8>| #[trigger] s.has_hash(h2) == (spre.has_hash(h2)
                            || h2 == hi || lseq.contains(h2)) by {}
                        assert forall|p: u64, c: u64| #[trigger] s.has_edge(p, c) == (
                        spre.has_edge(p, c) || (p == id && exists|k: int|
                            0 <= k < lseq.len() && c == s.hash_to_id(lseq[k]))) by {
                            assert((exists|k: int|
                                0 <= k < links@.len() && c == s.hash_to_id(links@[k]@)) == (exists|
                                k: int,
                            |
                                0 <= k < lseq.len() && c == s.hash_to_id(lseq[k]))) by {
                                if exists|k: int|
                                    0 <= k < links@.len() && c == s.hash_to_id(links@[k]@) {
                                    let k = choose|k: int|
                                        0 <= k < links@.len() && c == s.hash_to_id(links@[k]@);
                                    assert(lseq[k] == links@[k]@);
                                }
                                if exists|k: int| 0 <= k < lseq.len() && c == s.hash_to_id(
                                    lseq[k],
                                ) {
                                    let k = choose|k: int|
                                        0 <= k < lseq.len() && c == s.hash_to_id(lseq[k]);
                                    assert(links@[k]@ == lseq[k]);
                                }
                            }
                        }
                        lemma_migrate_fresh_step(legacy@, i as int, spre, s, lseq, id);
                    }
                }
            },
        }
        i += 1;
    }
    proof {
        assert(legacy@.take(legacy@.len() as int) =~= legacy@);
    }
    Ok(s)
}

} // verus!
