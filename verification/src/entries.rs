//! Entries of the spatial index and the spec-level vocabulary over them.
//!
//! An entry pairs a hashed bucket key with the particle id it indexes. After a
//! rebuild the entries array is sorted by key, so all entries sharing a key
//! form one contiguous run (a bucket). The spec functions here describe the
//! keyed slices of an entry sequence; the lemmas relate those slices to runs,
//! to counts, and to one another.

use rayon::slice::ParallelSliceMut;
use vstd::multiset::Multiset;
use vstd::prelude::*;

verus! {

broadcast use vstd::seq_lib::group_to_multiset_ensures;

/// One entry of the spatial index: the hashed bucket key of the particle's
/// cell, and the particle's externally owned id.
#[derive(Clone, Copy, PartialEq, Eq, Structural, Debug)]
pub struct SpatialIndexEntry {
    pub cell_key: u32,
    pub particle_index: u32,
}

/// The entries are sorted ascending by bucket key.
pub open spec fn sorted_by_key(s: Seq<SpatialIndexEntry>) -> bool {
    forall|i: int, j: int| 0 <= i <= j < s.len() ==> s[i].cell_key <= s[j].cell_key
}

/// The subsequence of entries whose key is exactly `k`, in entry order.
pub open spec fn entries_with_key(s: Seq<SpatialIndexEntry>, k: u32) -> Seq<SpatialIndexEntry> {
    s.filter(|e: SpatialIndexEntry| e.cell_key == k)
}

/// The subsequence of entries whose key lies in `ks`, in entry order.
pub open spec fn entries_with_keys(s: Seq<SpatialIndexEntry>, ks: Set<u32>) -> Seq<
    SpatialIndexEntry,
> {
    s.filter(|e: SpatialIndexEntry| ks.contains(e.cell_key))
}

/// The subsequence of entries whose key is below `k`, in entry order.
pub open spec fn entries_below_key(s: Seq<SpatialIndexEntry>, k: u32) -> Seq<SpatialIndexEntry> {
    s.filter(|e: SpatialIndexEntry| e.cell_key < k)
}

/// The particle ids of the bucket of key `k`, in entry order.
pub open spec fn bucket_ids(s: Seq<SpatialIndexEntry>, k: u32) -> Seq<u32> {
    entries_with_key(s, k).map_values(|e: SpatialIndexEntry| e.particle_index)
}

/// The candidate particle ids whose entry's key lies in `ks`, in entry order.
pub open spec fn candidate_ids(s: Seq<SpatialIndexEntry>, ks: Set<u32>) -> Seq<u32> {
    entries_with_keys(s, ks).map_values(|e: SpatialIndexEntry| e.particle_index)
}

/// Relies on rayon's `ParallelSliceMut::par_sort_unstable_by_key`: an
/// in-place, data-parallel sort of the slice by the extracted key. It
/// reorders the existing elements only, leaving them sorted by key; the
/// relative order of entries sharing a key is unspecified.
#[verifier::external_body]
pub(crate) fn par_sort_entries(entries: &mut Vec<SpatialIndexEntry>)
    ensures
        final(entries)@.to_multiset() == old(entries)@.to_multiset(),
        final(entries)@.len() == old(entries)@.len(),
        sorted_by_key(final(entries)@),
{
    entries.par_sort_unstable_by_key(|entry| entry.cell_key);
}

/// A sequence with no entry of key `k` has an empty key-`k` slice.
pub proof fn lemma_with_key_none(s: Seq<SpatialIndexEntry>, k: u32)
    requires
        forall|i: int| 0 <= i < s.len() ==> s[i].cell_key != k,
    ensures
        entries_with_key(s, k) == Seq::<SpatialIndexEntry>::empty(),
    decreases s.len(),
{
    reveal(Seq::filter);
    if s.len() == 0 {
        assert(entries_with_key(s, k) =~= Seq::<SpatialIndexEntry>::empty());
    } else {
        assert forall|i: int| 0 <= i < s.drop_last().len() implies s.drop_last()[i].cell_key
            != k by {
            assert(s.drop_last()[i] == s[i]);
        }
        lemma_with_key_none(s.drop_last(), k);
    }
}

/// A sequence all of whose entries have key `k` equals its own key-`k` slice.
pub proof fn lemma_with_key_all(s: Seq<SpatialIndexEntry>, k: u32)
    requires
        forall|i: int| 0 <= i < s.len() ==> s[i].cell_key == k,
    ensures
        entries_with_key(s, k) == s,
    decreases s.len(),
{
    reveal(Seq::filter);
    if s.len() == 0 {
    } else {
        assert forall|i: int| 0 <= i < s.drop_last().len() implies s.drop_last()[i].cell_key
            == k by {
            assert(s.drop_last()[i] == s[i]);
        }
        lemma_with_key_all(s.drop_last(), k);
        assert(entries_with_key(s, k) =~= s);
    }
}

/// A sequence with no entry of key in `ks` has an empty `ks` slice.
pub proof fn lemma_with_keys_none(s: Seq<SpatialIndexEntry>, ks: Set<u32>)
    requires
        forall|i: int| 0 <= i < s.len() ==> !ks.contains(s[i].cell_key),
    ensures
        entries_with_keys(s, ks) == Seq::<SpatialIndexEntry>::empty(),
    decreases s.len(),
{
    reveal(Seq::filter);
    if s.len() == 0 {
        assert(entries_with_keys(s, ks) =~= Seq::<SpatialIndexEntry>::empty());
    } else {
        assert forall|i: int| 0 <= i < s.drop_last().len() implies !ks.contains(
            s.drop_last()[i].cell_key,
        ) by {
            assert(s.drop_last()[i] == s[i]);
        }
        lemma_with_keys_none(s.drop_last(), ks);
    }
}

/// A sequence with no entry of key below `k` has an empty below-`k` slice.
pub proof fn lemma_below_key_none(s: Seq<SpatialIndexEntry>, k: u32)
    requires
        forall|i: int| 0 <= i < s.len() ==> s[i].cell_key >= k,
    ensures
        entries_below_key(s, k) == Seq::<SpatialIndexEntry>::empty(),
    decreases s.len(),
{
    reveal(Seq::filter);
    if s.len() == 0 {
        assert(entries_below_key(s, k) =~= Seq::<SpatialIndexEntry>::empty());
    } else {
        assert forall|i: int| 0 <= i < s.drop_last().len() implies s.drop_last()[i].cell_key
            >= k by {
            assert(s.drop_last()[i] == s[i]);
        }
        lemma_below_key_none(s.drop_last(), k);
    }
}

/// A sequence all of whose entries have key below `k` equals its below-`k`
/// slice.
pub proof fn lemma_below_key_all(s: Seq<SpatialIndexEntry>, k: u32)
    requires
        forall|i: int| 0 <= i < s.len() ==> s[i].cell_key < k,
    ensures
        entries_below_key(s, k) == s,
    decreases s.len(),
{
    reveal(Seq::filter);
    if s.len() == 0 {
    } else {
        assert forall|i: int| 0 <= i < s.drop_last().len() implies s.drop_last()[i].cell_key
            < k by {
            assert(s.drop_last()[i] == s[i]);
        }
        lemma_below_key_all(s.drop_last(), k);
        assert(entries_below_key(s, k) =~= s);
    }
}

/// In a sequence whose key-`k` entries are exactly the positions `st..en`,
/// the key-`k` slice is that contiguous run.
pub proof fn lemma_run_is_with_key(s: Seq<SpatialIndexEntry>, k: u32, st: int, en: int)
    requires
        0 <= st <= en <= s.len(),
        forall|j: int| 0 <= j < st ==> s[j].cell_key != k,
        forall|j: int| st <= j < en ==> s[j].cell_key == k,
        forall|j: int| en <= j < s.len() ==> s[j].cell_key != k,
    ensures
        entries_with_key(s, k) == s.subrange(st, en),
{
    let a = s.subrange(0, st);
    let b = s.subrange(st, en);
    let c = s.subrange(en, s.len() as int);
    assert(s =~= (a + b) + c);
    lemma_with_key_none(a, k);
    lemma_with_key_all(b, k);
    lemma_with_key_none(c, k);
    assert(entries_with_key((a + b) + c, k) == entries_with_key(a + b, k) + entries_with_key(c, k));
    assert(entries_with_key(a + b, k) == entries_with_key(a, k) + entries_with_key(b, k));
    assert(entries_with_key(s, k) =~= b);
}

/// Extending a key set by a key larger than all its members splits the
/// slice of a sorted sequence: the new key's bucket comes after the rest.
pub proof fn lemma_sorted_with_keys_insert(s: Seq<SpatialIndexEntry>, ks: Set<u32>, k: u32)
    requires
        sorted_by_key(s),
        forall|b: u32| ks.contains(b) ==> b < k,
    ensures
        entries_with_keys(s, ks.insert(k)) == entries_with_keys(s, ks) + entries_with_key(s, k),
    decreases s.len(),
{
    reveal(Seq::filter);
    if s.len() == 0 {
        assert(entries_with_keys(s, ks.insert(k)) =~= entries_with_keys(s, ks) + entries_with_key(
            s,
            k,
        ));
    } else {
        let d = s.drop_last();
        let l = s.last();
        assert forall|i: int, j: int| 0 <= i <= j < d.len() implies d[i].cell_key
            <= d[j].cell_key by {
            assert(d[i] == s[i] && d[j] == s[j]);
        }
        lemma_sorted_with_keys_insert(d, ks, k);
        if l.cell_key == k {
            assert(!ks.contains(l.cell_key));
            assert(entries_with_keys(s, ks.insert(k)) =~= entries_with_keys(s, ks)
                + entries_with_key(s, k));
        } else if ks.contains(l.cell_key) {
            assert forall|i: int| 0 <= i < d.len() implies d[i].cell_key != k by {
                assert(d[i] == s[i]);
                assert(s[i].cell_key <= l.cell_key < k);
            }
            lemma_with_key_none(d, k);
            assert(entries_with_keys(s, ks.insert(k)) =~= entries_with_keys(s, ks)
                + entries_with_key(s, k));
        } else {
            assert(!ks.insert(k).contains(l.cell_key));
            assert(entries_with_keys(s, ks.insert(k)) =~= entries_with_keys(s, ks)
                + entries_with_key(s, k));
        }
    }
}

/// An id occurs in the bucket of key `k` exactly as often as the entry
/// pairing `k` with that id occurs among the entries.
pub proof fn lemma_bucket_count(s: Seq<SpatialIndexEntry>, k: u32, i: u32)
    ensures
        bucket_ids(s, k).to_multiset().count(i) == s.to_multiset().count(
            (SpatialIndexEntry { cell_key: k, particle_index: i }),
        ),
    decreases s.len(),
{
    reveal(Seq::filter);
    let e = SpatialIndexEntry { cell_key: k, particle_index: i };
    if s.len() == 0 {
        assert(s.to_multiset() =~= Multiset::<SpatialIndexEntry>::empty());
        assert(entries_with_key(s, k).len() == 0);
        assert(bucket_ids(s, k).to_multiset() =~= Multiset::<u32>::empty());
    } else {
        let d = s.drop_last();
        let l = s.last();
        lemma_bucket_count(d, k, i);
        assert(s =~= d.push(l));
        assert(s.to_multiset() == d.to_multiset().insert(l));
        if l.cell_key == k {
            assert(entries_with_key(s, k) == entries_with_key(d, k).push(l));
            assert(bucket_ids(s, k) =~= bucket_ids(d, k).push(l.particle_index));
            assert(bucket_ids(s, k).to_multiset() == bucket_ids(d, k).to_multiset().insert(
                l.particle_index,
            ));
        } else {
            assert(entries_with_key(s, k) == entries_with_key(d, k));
            assert(l != e);
        }
    }
}

/// An entry occurs in the below-`k` slice exactly as often as it occurs in
/// the whole sequence, if its key is below `k`, and not at all otherwise.
pub proof fn lemma_below_key_count(s: Seq<SpatialIndexEntry>, k: u32, e: SpatialIndexEntry)
    ensures
        entries_below_key(s, k).to_multiset().count(e) == if e.cell_key < k {
            s.to_multiset().count(e)
        } else {
            0
        },
    decreases s.len(),
{
    reveal(Seq::filter);
    if s.len() == 0 {
        assert(s.to_multiset() =~= Multiset::<SpatialIndexEntry>::empty());
        assert(entries_below_key(s, k).to_multiset() =~= Multiset::<SpatialIndexEntry>::empty());
    } else {
        let d = s.drop_last();
        let l = s.last();
        lemma_below_key_count(d, k, e);
        assert(s =~= d.push(l));
        assert(s.to_multiset() == d.to_multiset().insert(l));
        if l.cell_key < k {
            assert(entries_below_key(s, k) == entries_below_key(d, k).push(l));
            assert(entries_below_key(s, k).to_multiset() == entries_below_key(
                d,
                k,
            ).to_multiset().insert(l));
        } else {
            assert(entries_below_key(s, k) == entries_below_key(d, k));
        }
    }
}

/// In a sorted sequence, the position of the first entry of key `k` equals
/// the number of entries whose key is below `k`.
pub proof fn lemma_first_index_is_below_count(s: Seq<SpatialIndexEntry>, k: u32, st: int)
    requires
        sorted_by_key(s),
        0 <= st < s.len(),
        s[st].cell_key == k,
        forall|j: int| 0 <= j < st ==> s[j].cell_key != k,
    ensures
        st == entries_below_key(s, k).len(),
{
    let a = s.subrange(0, st);
    let b = s.subrange(st, s.len() as int);
    assert(s =~= a + b);
    assert forall|i: int| 0 <= i < a.len() implies a[i].cell_key < k by {
        assert(a[i] == s[i]);
        assert(s[i].cell_key <= s[st].cell_key);
    }
    assert forall|i: int| 0 <= i < b.len() implies b[i].cell_key >= k by {
        assert(b[i] == s[st + i]);
        assert(s[st].cell_key <= s[st + i].cell_key);
    }
    lemma_below_key_all(a, k);
    lemma_below_key_none(b, k);
    assert(entries_below_key(a + b, k) == entries_below_key(a, k) + entries_below_key(b, k));
    assert(entries_below_key(s, k) =~= a);
}

} // verus!
