//! The uniform spatial hash grid.
//!
//! A rebuild (`update`) hashes every particle's cell to a bucket key, sorts
//! the entries by key with a data-parallel unstable sort, and records in
//! `start_indices` where each bucket's contiguous run begins. A query
//! (`potential_neighbours`) hashes the 3x3 block of cells around the query
//! cell, deduplicates the keys, and streams the candidate ids of the matching
//! runs. Candidates form a conservative superset: two distinct cells may
//! share a bucket key, so callers apply an exact distance filter.

use vstd::multiset::Multiset;
use vstd::prelude::*;

use crate::entries::SpatialIndexEntry;
use crate::entries::bucket_ids;
use crate::entries::candidate_ids;
use crate::entries::lemma_run_is_with_key;
use crate::entries::lemma_sorted_with_keys_insert;
use crate::entries::lemma_with_key_none;
use crate::entries::lemma_with_keys_none;
use crate::entries::par_sort_entries;
use crate::entries::sorted_by_key;
use crate::hashing::GridCell;
use crate::hashing::cell_key;
use crate::hashing::spec_cell_key;

verus! {

broadcast use vstd::seq_lib::group_to_multiset_ensures;

/// Largest supported particle count: keeps the bucket table size
/// `2 * num_particles` within both `u32` and `usize` range.
pub const MAX_PARTICLES: usize = 0x7FFF_FFFF;

/// The entries a rebuild derives from the input particles, in input order:
/// each particle's cell hashed to a bucket key, paired with its id.
pub open spec fn hashed_entries(ps: Seq<(u32, GridCell)>, table_size: int) -> Seq<
    SpatialIndexEntry,
> {
    ps.map_values(
        |p: (u32, GridCell)|
            (SpatialIndexEntry {
                cell_key: spec_cell_key(p.1, table_size),
                particle_index: p.0,
            }),
    )
}

/// The cell coordinate one step down, saturating at the representable edge.
pub open spec fn sat_dec(v: i32) -> i32 {
    if v == i32::MIN {
        v
    } else {
        (v - 1) as i32
    }
}

/// The cell coordinate one step up, saturating at the representable edge.
pub open spec fn sat_inc(v: i32) -> i32 {
    if v == i32::MAX {
        v
    } else {
        (v + 1) as i32
    }
}

/// The 3x3 block of cells around `centre`, in a fixed order.
pub open spec fn block_cells(centre: GridCell) -> Seq<GridCell> {
    seq![
        (GridCell { x: sat_dec(centre.x), y: sat_dec(centre.y) }),
        (GridCell { x: sat_dec(centre.x), y: centre.y }),
        (GridCell { x: sat_dec(centre.x), y: sat_inc(centre.y) }),
        (GridCell { x: centre.x, y: sat_dec(centre.y) }),
        (GridCell { x: centre.x, y: centre.y }),
        (GridCell { x: centre.x, y: sat_inc(centre.y) }),
        (GridCell { x: sat_inc(centre.x), y: sat_dec(centre.y) }),
        (GridCell { x: sat_inc(centre.x), y: centre.y }),
        (GridCell { x: sat_inc(centre.x), y: sat_inc(centre.y) }),
    ]
}

/// Whether `c` lies in the 3x3 block of cells around `centre`.
pub open spec fn in_block(centre: GridCell, c: GridCell) -> bool {
    (c.x == sat_dec(centre.x) || c.x == centre.x || c.x == sat_inc(centre.x)) && (c.y == sat_dec(
        centre.y,
    ) || c.y == centre.y || c.y == sat_inc(centre.y))
}

/// The bucket keys of the 3x3 block of cells around `centre`.
pub open spec fn block_keys(centre: GridCell, table_size: int) -> Set<u32> {
    block_cells(centre).map_values(|d: GridCell| spec_cell_key(d, table_size)).to_set()
}

/// The block membership test and the block cell list agree.
pub proof fn lemma_in_block_contains(centre: GridCell, c: GridCell)
    ensures
        in_block(centre, c) <==> block_cells(centre).contains(c),
{
    if in_block(centre, c) {
        if c.x == sat_dec(centre.x) {
            if c.y == sat_dec(centre.y) {
                assert(block_cells(centre)[0] == c);
            } else if c.y == centre.y {
                assert(block_cells(centre)[1] == c);
            } else {
                assert(block_cells(centre)[2] == c);
            }
        } else if c.x == centre.x {
            if c.y == sat_dec(centre.y) {
                assert(block_cells(centre)[3] == c);
            } else if c.y == centre.y {
                assert(block_cells(centre)[4] == c);
            } else {
                assert(block_cells(centre)[5] == c);
            }
        } else {
            if c.y == sat_dec(centre.y) {
                assert(block_cells(centre)[6] == c);
            } else if c.y == centre.y {
                assert(block_cells(centre)[7] == c);
            } else {
                assert(block_cells(centre)[8] == c);
            }
        }
    }
}

/// The bucket key of every cell of the block lies in the block's key set.
pub proof fn lemma_block_key_member(centre: GridCell, c: GridCell, table_size: int)
    requires
        in_block(centre, c),
    ensures
        block_keys(centre, table_size).contains(spec_cell_key(c, table_size)),
{
    lemma_in_block_contains(centre, c);
    let cells = block_cells(centre);
    let keys = cells.map_values(|d: GridCell| spec_cell_key(d, table_size));
    let i = choose|i: int| 0 <= i < cells.len() && cells[i] == c;
    assert(keys[i] == spec_cell_key(c, table_size));
    assert(keys.contains(spec_cell_key(c, table_size)));
}

/// Whether `slot` correctly describes the first occurrence of key `k` within
/// the first `upto` entries: it points at the first entry of that key, or is
/// empty when the key does not occur there.
pub open spec fn start_slot_ok_upto(
    entries: Seq<SpatialIndexEntry>,
    upto: int,
    k: int,
    slot: Option<usize>,
) -> bool {
    match slot {
        Some(st) => {
            &&& (st as int) < upto
            &&& entries[st as int].cell_key == k
            &&& forall|j: int| 0 <= j < (st as int) ==> entries[j].cell_key != k
        },
        None => forall|j: int| 0 <= j < upto ==> entries[j].cell_key != k,
    }
}

/// Whether `slot` correctly describes the first occurrence of key `k` among
/// all entries.
pub open spec fn start_slot_ok(
    entries: Seq<SpatialIndexEntry>,
    k: int,
    slot: Option<usize>,
) -> bool {
    start_slot_ok_upto(entries, entries.len() as int, k, slot)
}

/// The uniform spatial hash grid: the sorted entries array, the bucket
/// table of run start offsets, and the authoritative particle count.
pub struct SpatialIndex {
    entries: Vec<SpatialIndexEntry>,
    start_indices: Vec<Option<usize>>,
    num_particles: usize,
}

impl SpatialIndex {
    /// The entries array, as a sequence.
    pub closed spec fn entries_view(self) -> Seq<SpatialIndexEntry> {
        self.entries@
    }

    /// The bucket table, as a sequence of optional run start offsets.
    pub closed spec fn starts_view(self) -> Seq<Option<usize>> {
        self.start_indices@
    }

    /// The particle count of the last rebuild.
    pub closed spec fn particle_count(self) -> int {
        self.num_particles as int
    }

    /// The bucket table size: twice the particle count.
    pub open spec fn table_size(self) -> int {
        2 * self.particle_count()
    }

    /// Well-formedness after a rebuild: the entries array holds one entry per
    /// particle, sorted ascending by bucket key, every key lies within the
    /// table, and every table slot points at the first entry of its run (or
    /// is empty when no entry carries its key).
    pub open spec fn wf(self) -> bool {
        &&& self.particle_count() <= MAX_PARTICLES as int
        &&& self.entries_view().len() == self.particle_count()
        &&& self.starts_view().len() == self.table_size()
        &&& sorted_by_key(self.entries_view())
        &&& forall|i: int|
            0 <= i < self.entries_view().len() ==> (#[trigger] self.entries_view()[i]).cell_key
                < self.table_size()
        &&& forall|k: int|
            0 <= k < self.starts_view().len() ==> start_slot_ok(
                self.entries_view(),
                k,
                #[trigger] self.starts_view()[k],
            )
    }

    /// A fresh, empty grid with storage for `num_particles` particles.
    pub fn with_capacity(num_particles: usize) -> (r: Self)
        requires
            num_particles <= MAX_PARTICLES,
        ensures
            r.wf(),
            r.particle_count() == 0,
            r.entries_view() == Seq::<SpatialIndexEntry>::empty(),
    {
        let r = SpatialIndex {
            entries: Vec::with_capacity(num_particles),
            start_indices: Vec::with_capacity(2 * num_particles),
            num_particles: 0,
        };
        proof {
            assert(r.entries_view() =~= Seq::<SpatialIndexEntry>::empty());
        }
        r
    }

    /// A fresh, empty grid.
    pub fn new() -> (r: Self)
        ensures
            r.wf(),
            r.particle_count() == 0,
            r.entries_view() == Seq::<SpatialIndexEntry>::empty(),
    {
        Self::with_capacity(0)
    }

    /// The bucket table size for a particle count.
    #[inline]
    fn hash_map_size(num_particles: usize) -> (r: usize)
        requires
            num_particles <= MAX_PARTICLES,
        ensures
            r == 2 * num_particles,
    {
        2 * num_particles
    }

    /// Sorts the entries by bucket key and derives the run start offsets:
    /// one linear pass records, at every change of key, where the new run
    /// begins.
    fn finish(&mut self)
        requires
            old(self).particle_count() <= MAX_PARTICLES as int,
            old(self).entries_view().len() == old(self).particle_count(),
            old(self).starts_view().len() == old(self).table_size(),
            forall|i: int|
                0 <= i < old(self).entries_view().len() ==> (#[trigger] old(self).entries_view()[i]).cell_key
                    < old(self).table_size(),
            forall|k: int|
                0 <= k < old(self).starts_view().len() ==> old(self).starts_view()[k] is None,
        ensures
            final(self).wf(),
            final(self).particle_count() == old(self).particle_count(),
            final(self).entries_view().to_multiset() == old(self).entries_view().to_multiset(),
    {
        if self.num_particles == 0 {
            return ;
        }
        par_sort_entries(&mut self.entries);
        proof {
            assert forall|i: int|
                0 <= i < self.entries@.len() implies (#[trigger] self.entries@[i]).cell_key < 2
                * self.num_particles by {
                assert(self.entries@.to_multiset().contains(self.entries@[i]));
                assert(old(self).entries_view().to_multiset().contains(self.entries@[i]));
                assert(old(self).entries_view().contains(self.entries@[i]));
            }
        }
        let ghost sorted_entries = self.entries@;
        let first_key = self.entries[0].cell_key;
        self.start_indices.set(first_key as usize, Some(0usize));
        proof {
            assert forall|k: int|
                0 <= k < self.start_indices@.len() implies start_slot_ok_upto(
                sorted_entries,
                1,
                k,
                #[trigger] self.start_indices@[k],
            ) by {
                if k != first_key {
                    assert(self.start_indices@[k] == old(self).starts_view()[k]);
                }
            }
        }
        let mut idx: usize = 1;
        while idx < self.entries.len()
            invariant
                1 <= idx <= self.entries@.len(),
                self.entries@ == sorted_entries,
                self.num_particles == old(self).num_particles,
                self.entries@.len() == self.num_particles,
                self.num_particles <= MAX_PARTICLES,
                self.start_indices@.len() == 2 * self.num_particles,
                sorted_by_key(self.entries@),
                forall|i: int|
                    0 <= i < self.entries@.len() ==> (#[trigger] self.entries@[i]).cell_key < 2
                        * self.num_particles,
                forall|k: int|
                    0 <= k < self.start_indices@.len() ==> start_slot_ok_upto(
                        self.entries@,
                        idx as int,
                        k,
                        #[trigger] self.start_indices@[k],
                    ),
            decreases self.entries@.len() - idx,
        {
            let prev_key = self.entries[idx - 1].cell_key;
            let cur_key = self.entries[idx].cell_key;
            if prev_key != cur_key {
                proof {
                    assert(prev_key < cur_key);
                    assert forall|j: int| 0 <= j < idx as int implies self.entries@[j].cell_key
                        != cur_key by {
                        assert(self.entries@[j].cell_key <= prev_key);
                    }
                }
                let ghost starts_before = self.start_indices@;
                self.start_indices.set(cur_key as usize, Some(idx));
                proof {
                    assert forall|k: int|
                        0 <= k < self.start_indices@.len() implies start_slot_ok_upto(
                        self.entries@,
                        idx + 1,
                        k,
                        #[trigger] self.start_indices@[k],
                    ) by {
                        if k == cur_key {
                            assert(self.start_indices@[k] == Some(idx));
                        } else {
                            assert(self.start_indices@[k] == starts_before[k]);
                            assert(start_slot_ok_upto(self.entries@, idx as int, k, starts_before[k]));
                            assert(self.entries@[idx as int].cell_key != k);
                        }
                    }
                }
            } else {
                proof {
                    assert forall|k: int|
                        0 <= k < self.start_indices@.len() implies start_slot_ok_upto(
                        self.entries@,
                        idx + 1,
                        k,
                        #[trigger] self.start_indices@[k],
                    ) by {
                        if k == cur_key {
                            assert(self.entries@[idx - 1].cell_key == k);
                            if self.start_indices@[k] is None {
                                assert(self.entries@[idx - 1].cell_key != k);
                            }
                        } else {
                            assert(self.entries@[idx as int].cell_key != k);
                        }
                    }
                }
            }
            idx = idx + 1;
        }
    }

    /// Rebuilds the grid from the caller's current particle set: hashes every
    /// particle's cell, sorts the entries by bucket key in parallel, and
    /// records each bucket run's start offset. The previous contents are
    /// discarded; storage is reused where capacity suffices.
    pub fn update(&mut self, num_particles: usize, particles: &Vec<(u32, GridCell)>)
        requires
            particles@.len() == num_particles,
            num_particles <= MAX_PARTICLES,
        ensures
            final(self).wf(),
            final(self).particle_count() == num_particles as int,
            final(self).entries_view().to_multiset() == hashed_entries(
                particles@,
                2 * num_particles as int,
            ).to_multiset(),
    {
        self.num_particles = num_particles;
        let table_size = Self::hash_map_size(num_particles);

        self.start_indices.clear();
        while self.start_indices.len() < table_size
            invariant
                self.start_indices@.len() <= table_size,
                forall|k: int| 0 <= k < self.start_indices@.len() ==> self.start_indices@[k] is None,
                self.num_particles == num_particles,
                self.entries@ == old(self).entries_view(),
            decreases table_size - self.start_indices@.len(),
        {
            self.start_indices.push(None);
        }

        self.entries.clear();
        let mut i: usize = 0;
        while i < num_particles
            invariant
                i <= num_particles,
                num_particles <= MAX_PARTICLES,
                particles@.len() == num_particles,
                table_size == 2 * num_particles,
                self.num_particles == num_particles,
                self.start_indices@.len() == table_size,
                forall|k: int| 0 <= k < self.start_indices@.len() ==> self.start_indices@[k] is None,
                self.entries@ == hashed_entries(particles@.take(i as int), table_size as int),
            decreases num_particles - i,
        {
            let p = particles[i];
            let k = cell_key(p.1, table_size);
            self.entries.push(SpatialIndexEntry { cell_key: k, particle_index: p.0 });
            proof {
                assert(hashed_entries(particles@.take(i + 1), table_size as int)
                    =~= hashed_entries(particles@.take(i as int), table_size as int).push(
                    (SpatialIndexEntry {
                        cell_key: spec_cell_key(particles@[i as int].1, table_size as int),
                        particle_index: particles@[i as int].0,
                    }),
                ));
            }
            i = i + 1;
        }
        proof {
            assert(particles@.take(num_particles as int) =~= particles@);
            assert forall|j: int|
                0 <= j < self.entries@.len() implies (#[trigger] self.entries@[j]).cell_key < 2
                * self.num_particles by {
                assert(self.entries@[j] == hashed_entries(particles@, table_size as int)[j]);
            }
        }
        self.finish();
    }

    /// Appends to `out` every particle id of the bucket of `key`: the
    /// contiguous run of entries starting at the bucket's recorded offset.
    fn entities_in_cell_key(&self, key: u32, out: &mut Vec<u32>)
        requires
            self.wf(),
            (key as int) < self.starts_view().len(),
        ensures
            final(out)@ == old(out)@ + bucket_ids(self.entries_view(), key),
    {
        let ghost s = self.entries@;
        match self.start_indices[key as usize] {
            None => {
                proof {
                    lemma_with_key_none(s, key);
                    assert(out@ =~= out@ + bucket_ids(s, key));
                }
            },
            Some(start_index) => {
                let ghost out0 = out@;
                let mut j: usize = start_index;
                while j < self.entries.len() && self.entries[j].cell_key == key
                    invariant
                        self.wf(),
                        s == self.entries@,
                        (key as int) < self.starts_view().len(),
                        self.starts_view()[key as int] == Some(start_index),
                        start_index <= j <= s.len(),
                        forall|m: int| start_index <= m < j ==> s[m].cell_key == key,
                        out@ == out0 + s.subrange(start_index as int, j as int).map_values(
                            |e: SpatialIndexEntry| e.particle_index,
                        ),
                    decreases s.len() - j,
                {
                    let id = self.entries[j].particle_index;
                    out.push(id);
                    proof {
                        assert(s.subrange(start_index as int, j + 1).map_values(
                            |e: SpatialIndexEntry| e.particle_index,
                        ) =~= s.subrange(start_index as int, j as int).map_values(
                            |e: SpatialIndexEntry| e.particle_index,
                        ).push(id));
                    }
                    j = j + 1;
                }
                proof {
                    assert(s[start_index as int].cell_key == key);
                    assert(start_index < j);
                    assert forall|m: int| j <= m < s.len() implies s[m].cell_key != key by {
                        assert(s[j as int].cell_key != key);
                        assert(s[start_index as int].cell_key <= s[j as int].cell_key);
                        assert(s[j as int].cell_key <= s[m].cell_key);
                    }
                    lemma_run_is_with_key(s, key, start_index as int, j as int);
                    assert(bucket_ids(s, key) == s.subrange(start_index as int, j as int).map_values(
                        |e: SpatialIndexEntry| e.particle_index,
                    ));
                }
            },
        }
    }

    /// The candidate neighbours of a query point whose cell is `cell`: every
    /// particle id whose entry's bucket key is the key of one of the 3x3
    /// block of cells around `cell`, each entry yielded once, in entry
    /// order. The result is a conservative superset — distinct cells may
    /// share a key — so callers apply an exact distance filter. On an empty
    /// grid the result is empty and nothing is hashed.
    pub fn potential_neighbours(&self, cell: GridCell) -> (r: Vec<u32>)
        requires
            self.wf(),
        ensures
            r@ == candidate_ids(self.entries_view(), block_keys(cell, self.table_size())),
            self.particle_count() == 0 ==> r@ == Seq::<u32>::empty(),
    {
        let mut r: Vec<u32> = Vec::new();
        let ghost all_keys = block_keys(cell, self.table_size());
        if self.num_particles == 0 {
            proof {
                lemma_with_keys_none(self.entries_view(), all_keys);
                assert(r@ =~= candidate_ids(self.entries_view(), all_keys));
            }
            return r;
        }
        let table_size = self.start_indices.len();
        let x0 = coord_dec(cell.x);
        let x2 = coord_inc(cell.x);
        let y0 = coord_dec(cell.y);
        let y2 = coord_inc(cell.y);
        let mut query_keys: Vec<u32> = Vec::new();
        query_keys.push(cell_key(GridCell { x: x0, y: y0 }, table_size));
        query_keys.push(cell_key(GridCell { x: x0, y: cell.y }, table_size));
        query_keys.push(cell_key(GridCell { x: x0, y: y2 }, table_size));
        query_keys.push(cell_key(GridCell { x: cell.x, y: y0 }, table_size));
        query_keys.push(cell_key(GridCell { x: cell.x, y: cell.y }, table_size));
        query_keys.push(cell_key(GridCell { x: cell.x, y: y2 }, table_size));
        query_keys.push(cell_key(GridCell { x: x2, y: y0 }, table_size));
        query_keys.push(cell_key(GridCell { x: x2, y: cell.y }, table_size));
        query_keys.push(cell_key(GridCell { x: x2, y: y2 }, table_size));
        proof {
            assert(query_keys@ =~= block_cells(cell).map_values(
                |d: GridCell| spec_cell_key(d, self.table_size()),
            ));
        }
        let ghost unsorted = query_keys@;
        sort_keys(&mut query_keys);
        let ghost key_seq = query_keys@;
        proof {
            assert forall|v: u32| key_seq.contains(v) <==> unsorted.contains(v) by {
                assert(key_seq.to_multiset().contains(v) <==> unsorted.to_multiset().contains(v));
            }
            assert(key_seq.to_set() =~= all_keys);
            assert forall|t: int| 0 <= t < key_seq.len() implies (key_seq[t] as int)
                < self.table_size() by {
                assert(key_seq.contains(key_seq[t]));
                let u = choose|u: int| 0 <= u < unsorted.len() && unsorted[u] == key_seq[t];
                assert(unsorted[u] == spec_cell_key(block_cells(cell)[u], self.table_size()));
            }
        }
        proof {
            assert(key_seq.take(0).to_set() =~= Set::<u32>::empty());
            lemma_with_keys_none(self.entries_view(), key_seq.take(0).to_set());
            assert(r@ =~= candidate_ids(self.entries_view(), key_seq.take(0).to_set()));
        }
        let mut t: usize = 0;
        while t < query_keys.len()
            invariant
                self.wf(),
                self.particle_count() > 0,
                query_keys@ == key_seq,
                sorted_keys(key_seq),
                forall|u: int| 0 <= u < key_seq.len() ==> (key_seq[u] as int) < self.table_size(),
                t <= key_seq.len(),
                r@ == candidate_ids(self.entries_view(), key_seq.take(t as int).to_set()),
            decreases key_seq.len() - t,
        {
            let k = query_keys[t];
            let ghost seen = key_seq.take(t as int).to_set();
            if t == 0 || k != query_keys[t - 1] {
                proof {
                    assert forall|b: u32| seen.contains(b) implies b < k by {
                        let u = choose|u: int|
                            0 <= u < t as int && #[trigger] key_seq.take(t as int)[u] == b;
                        assert(key_seq[u] == b);
                        assert(key_seq[u] <= key_seq[t - 1]);
                        assert(key_seq[t - 1] < k);
                    }
                    lemma_sorted_with_keys_insert(self.entries_view(), seen, k);
                    assert(candidate_ids(self.entries_view(), seen.insert(k))
                        =~= candidate_ids(self.entries_view(), seen) + bucket_ids(
                        self.entries_view(),
                        k,
                    ));
                }
                self.entities_in_cell_key(k, &mut r);
                proof {
                    assert(key_seq.take(t + 1).to_set() =~= seen.insert(k)) by {
                        assert forall|v: u32|
                            key_seq.take(t + 1).to_set().contains(v) <==> seen.insert(k).contains(
                                v,
                            ) by {
                            if key_seq.take(t + 1).contains(v) {
                                let u = choose|u: int|
                                    0 <= u < t + 1 && #[trigger] key_seq.take(t + 1)[u] == v;
                                if u < t as int {
                                    assert(key_seq.take(t as int)[u] == v);
                                }
                            }
                            if seen.contains(v) {
                                let u = choose|u: int|
                                    0 <= u < t as int && #[trigger] key_seq.take(t as int)[u] == v;
                                assert(key_seq.take(t + 1)[u] == v);
                            }
                            if v == k {
                                assert(key_seq.take(t + 1)[t as int] == v);
                            }
                        }
                    }
                }
            } else {
                proof {
                    assert(key_seq.take(t as int)[t - 1] == k);
                    assert(seen.contains(k));
                    assert(key_seq.take(t + 1).to_set() =~= seen) by {
                        assert forall|v: u32|
                            key_seq.take(t + 1).to_set().contains(v) <==> seen.contains(v) by {
                            if key_seq.take(t + 1).contains(v) {
                                let u = choose|u: int|
                                    0 <= u < t + 1 && #[trigger] key_seq.take(t + 1)[u] == v;
                                if u < t as int {
                                    assert(key_seq.take(t as int)[u] == v);
                                } else {
                                    assert(v == k);
                                }
                            }
                            if seen.contains(v) {
                                let u = choose|u: int|
                                    0 <= u < t as int && #[trigger] key_seq.take(t as int)[u] == v;
                                assert(key_seq.take(t + 1)[u] == v);
                            }
                        }
                    }
                }
            }
            t = t + 1;
        }
        proof {
            assert(key_seq.take(key_seq.len() as int) =~= key_seq);
        }
        r
    }

    /// The particle ids of the bucket that `cell` hashes to, in entry order.
    /// On an empty grid the result is empty and nothing is hashed.
    pub fn entities_in_cell(&self, cell: GridCell) -> (r: Vec<u32>)
        requires
            self.wf(),
        ensures
            self.particle_count() == 0 ==> r@ == Seq::<u32>::empty(),
            self.particle_count() > 0 ==> r@ == bucket_ids(
                self.entries_view(),
                spec_cell_key(cell, self.table_size()),
            ),
    {
        let mut r: Vec<u32> = Vec::new();
        if self.num_particles == 0 {
            return r;
        }
        let key = cell_key(cell, self.start_indices.len());
        self.entities_in_cell_key(key, &mut r);
        proof {
            assert(r@ =~= bucket_ids(self.entries_view(), spec_cell_key(cell, self.table_size())));
        }
        r
    }
}

/// The bucket keys are sorted ascending.
pub open spec fn sorted_keys(s: Seq<u32>) -> bool {
    forall|i: int, j: int| 0 <= i <= j < s.len() ==> s[i] <= s[j]
}

/// The cell coordinate one step down, saturating at the representable edge.
fn coord_dec(v: i32) -> (r: i32)
    ensures
        r == sat_dec(v),
{
    if v == i32::MIN {
        v
    } else {
        v - 1
    }
}

/// The cell coordinate one step up, saturating at the representable edge.
fn coord_inc(v: i32) -> (r: i32)
    ensures
        r == sat_inc(v),
{
    if v == i32::MAX {
        v
    } else {
        v + 1
    }
}

/// Sorts the bucket keys of the query block ascending, so that one walk can
/// skip a key equal to its predecessor.
fn sort_keys(keys: &mut Vec<u32>)
    ensures
        final(keys)@.len() == old(keys)@.len(),
        final(keys)@.to_multiset() == old(keys)@.to_multiset(),
        sorted_keys(final(keys)@),
{
    let ghost input = keys@;
    let mut out: Vec<u32> = Vec::new();
    while keys.len() > 0
        invariant
            out@.to_multiset().add(keys@.to_multiset()) == input.to_multiset(),
            sorted_keys(out@),
            forall|a: int, b: int|
                0 <= a < out@.len() && 0 <= b < keys@.len() ==> out@[a] <= keys@[b],
        decreases keys@.len(),
    {
        let mut min_idx: usize = 0;
        let mut m: usize = 1;
        while m < keys.len()
            invariant
                keys@.len() > 0,
                0 <= min_idx < keys@.len(),
                m <= keys@.len(),
                forall|t: int| 0 <= t < m ==> keys@[min_idx as int] <= keys@[t],
            decreases keys@.len() - m,
        {
            if keys[m] < keys[min_idx] {
                min_idx = m;
            }
            m = m + 1;
        }
        let ghost keys_before = keys@;
        let ghost out_before = out@;
        let v = keys.remove(min_idx);
        out.push(v);
        proof {
            assert(keys_before.contains(keys_before[min_idx as int]));
            assert(keys_before.to_multiset().count(v) > 0);
            assert(out@.to_multiset() == out_before.to_multiset().insert(v));
            assert(keys@.to_multiset() == keys_before.to_multiset().remove(v));
            assert(out@.to_multiset().add(keys@.to_multiset()) =~= out_before.to_multiset().add(
                keys_before.to_multiset(),
            ));
            assert forall|a: int, b: int|
                0 <= a < out@.len() && 0 <= b < keys@.len() implies out@[a] <= keys@[b] by {
                if b < min_idx as int {
                    assert(keys@[b] == keys_before[b]);
                } else {
                    assert(keys@[b] == keys_before[b + 1]);
                }
                if a < out_before.len() as int {
                    assert(out@[a] == out_before[a]);
                } else {
                    assert(out@[a] == v);
                }
            }
        }
    }
    proof {
        assert(keys@.to_multiset() =~= Multiset::<u32>::empty());
        assert(out@.to_multiset() =~= input.to_multiset());
        assert(out@.to_multiset().len() == out@.len());
        assert(input.to_multiset().len() == input.len());
    }
    *keys = out;
}

impl Default for SpatialIndex {
    /// A fresh, empty grid.
    fn default() -> (r: Self)
        ensures
            r.wf(),
            r.particle_count() == 0,
            r.entries_view() == Seq::<SpatialIndexEntry>::empty(),
    {
        Self::new()
    }
}

} // verus!
