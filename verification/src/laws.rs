//! The grid's stated laws, proved from the public contracts.

use vstd::prelude::*;

use crate::entries::SpatialIndexEntry;
use crate::entries::bucket_ids;
use crate::entries::candidate_ids;
use crate::entries::entries_below_key;
use crate::entries::entries_with_keys;
use crate::entries::lemma_below_key_count;
use crate::entries::lemma_bucket_count;
use crate::entries::lemma_first_index_is_below_count;
use crate::hashing::GridCell;
use crate::hashing::spec_cell_key;
use crate::spatial_index::SpatialIndex;
use crate::spatial_index::block_keys;
use crate::spatial_index::hashed_entries;
use crate::spatial_index::in_block;
use crate::spatial_index::lemma_block_key_member;

verus! {

broadcast use vstd::seq_lib::group_to_multiset_ensures;

/// Law: no false negatives within the block. Whenever a grid was rebuilt
/// from a particle list (its entries carry exactly the hashed input, as
/// `update` ensures), every particle whose cell lies in the 3x3 block
/// around the query cell is among the candidates that
/// `potential_neighbours` returns for it. Since a particle within distance
/// `cell_size` of the query point always lies in that block, the candidate
/// set is a superset of the true neighbourhood.
pub proof fn lemma_superset(g: SpatialIndex, ps: Seq<(u32, GridCell)>, centre: GridCell, i: int)
    requires
        g.wf(),
        g.entries_view().to_multiset() == hashed_entries(ps, g.table_size()).to_multiset(),
        0 <= i < ps.len(),
        in_block(centre, ps[i].1),
    ensures
        candidate_ids(g.entries_view(), block_keys(centre, g.table_size())).contains(ps[i].0),
{
    let ts = g.table_size();
    let k = spec_cell_key(ps[i].1, ts);
    let e = SpatialIndexEntry { cell_key: k, particle_index: ps[i].0 };
    lemma_block_key_member(centre, ps[i].1, ts);
    assert(hashed_entries(ps, ts)[i] == e);
    assert(hashed_entries(ps, ts).contains(e));
    assert(g.entries_view().to_multiset().contains(e));
    assert(g.entries_view().contains(e));
    let s = g.entries_view();
    let ks = block_keys(centre, ts);
    let j = choose|j: int| 0 <= j < s.len() && s[j] == e;
    assert(ks.contains(s[j].cell_key));
    assert(entries_with_keys(s, ks).contains(s[j]));
    let m = choose|m: int|
        0 <= m < entries_with_keys(s, ks).len() && entries_with_keys(s, ks)[m] == s[j];
    assert(candidate_ids(s, ks)[m] == ps[i].0);
    assert(candidate_ids(s, ks).contains(ps[i].0));
}

/// Law: rebuild membership is deterministic. Two well-formed grids holding
/// the same entries as unordered collections — as two rebuilds from the
/// same input do, however the unstable sort tied equal keys — have
/// identical bucket tables and, for every key, identical per-bucket
/// particle-id collections.
pub proof fn lemma_rebuild_deterministic(g1: SpatialIndex, g2: SpatialIndex)
    requires
        g1.wf(),
        g2.wf(),
        g1.particle_count() == g2.particle_count(),
        g1.entries_view().to_multiset() == g2.entries_view().to_multiset(),
    ensures
        g1.starts_view() == g2.starts_view(),
        forall|k: u32| #[trigger]
            bucket_ids(g1.entries_view(), k).to_multiset() == bucket_ids(
                g2.entries_view(),
                k,
            ).to_multiset(),
{
    let s1 = g1.entries_view();
    let s2 = g2.entries_view();
    assert forall|k: u32| #[trigger]
        bucket_ids(s1, k).to_multiset() == bucket_ids(s2, k).to_multiset() by {
        assert forall|i: u32|
            bucket_ids(s1, k).to_multiset().count(i) == bucket_ids(
                s2,
                k,
            ).to_multiset().count(i) by {
            lemma_bucket_count(s1, k, i);
            lemma_bucket_count(s2, k, i);
        }
        assert(bucket_ids(s1, k).to_multiset() =~= bucket_ids(s2, k).to_multiset());
    }
    assert forall|k: int| 0 <= k < g1.starts_view().len() implies g1.starts_view()[k]
        == g2.starts_view()[k] by {
        let ku = k as u32;
        lemma_equal_slot(g1, g2, ku);
        lemma_equal_slot(g2, g1, ku);
        match g1.starts_view()[k] {
            Some(st1) => {
                match g2.starts_view()[k] {
                    Some(st2) => {
                        lemma_first_index_is_below_count(s1, ku, st1 as int);
                        lemma_first_index_is_below_count(s2, ku, st2 as int);
                        assert forall|e: SpatialIndexEntry|
                            entries_below_key(s1, ku).to_multiset().count(e) == entries_below_key(
                                s2,
                                ku,
                            ).to_multiset().count(e) by {
                            lemma_below_key_count(s1, ku, e);
                            lemma_below_key_count(s2, ku, e);
                        }
                        assert(entries_below_key(s1, ku).to_multiset() =~= entries_below_key(
                            s2,
                            ku,
                        ).to_multiset());
                        assert(entries_below_key(s1, ku).to_multiset().len() == entries_below_key(
                            s1,
                            ku,
                        ).len());
                        assert(entries_below_key(s2, ku).to_multiset().len() == entries_below_key(
                            s2,
                            ku,
                        ).len());
                    },
                    None => {
                        assert(false);
                    },
                }
            },
            None => {
                match g2.starts_view()[k] {
                    Some(st2) => {
                        assert(false);
                    },
                    None => {},
                }
            },
        }
    }
    assert(g1.starts_view() =~= g2.starts_view());
}

/// If the bucket of `k` is occupied in `ga` it is occupied in `gb` too, for
/// two well-formed grids of equal size holding the same entries as
/// unordered collections.
proof fn lemma_equal_slot(ga: SpatialIndex, gb: SpatialIndex, k: u32)
    requires
        ga.wf(),
        gb.wf(),
        ga.particle_count() == gb.particle_count(),
        ga.entries_view().to_multiset() == gb.entries_view().to_multiset(),
        0 <= k < ga.starts_view().len(),
    ensures
        ga.starts_view()[k as int] is Some ==> gb.starts_view()[k as int] is Some,
{
    let sa = ga.entries_view();
    let sb = gb.entries_view();
    if ga.starts_view()[k as int] is Some {
        let st = ga.starts_view()[k as int]->0;
        let e = sa[st as int];
        assert(sa.contains(e));
        assert(sb.to_multiset().contains(e));
        assert(sb.contains(e));
        let j = choose|j: int| 0 <= j < sb.len() && sb[j] == e;
        if gb.starts_view()[k as int] is None {
            assert(sb[j].cell_key != k);
            assert(false);
        }
    }
}

} // verus!
