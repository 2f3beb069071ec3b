//! Tests of the fixed-seed cell hash and of collision tolerance.

use spatial_grid::hashing::{cell_hash, cell_key, GridCell, HASH_MULT_X, HASH_MULT_Y, HASH_SEED};
use spatial_grid::spatial_index::SpatialIndex;

#[test]
fn test_hash_deterministic() {
    let c = GridCell { x: -17, y: 2031 };
    assert_eq!(cell_hash(c), cell_hash(c));
    assert_eq!(cell_key(c, 64), cell_key(c, 64));
    assert_eq!(cell_key(c, 7), cell_key(c, 7));
}

#[test]
fn test_cell_hash_formula() {
    let c = GridCell { x: -2, y: 3 };
    let bx = (-2i32 as u32) as u128;
    let by = 3u128;
    let m = bx * (HASH_MULT_X as u128) + by * (HASH_MULT_Y as u128) + (HASH_SEED as u128);
    let expected = ((m ^ (m >> 32)) % (1u128 << 64)) as u64;
    assert_eq!(cell_hash(c), expected);
}

#[test]
fn test_cell_key_is_hash_reduced() {
    let c = GridCell { x: 123, y: -456 };
    for table_size in [1usize, 2, 3, 64, 1000] {
        let k = cell_key(c, table_size);
        assert_eq!(k as u64, cell_hash(c) % (table_size as u64));
        assert!((k as usize) < table_size);
    }
}

/// Finds a cell on the x axis, at least three cells away from the origin,
/// whose bucket key collides with the origin cell's under a table of
/// `table_size` buckets.
fn find_colliding_cell(table_size: usize) -> GridCell {
    let origin = GridCell { x: 0, y: 0 };
    let origin_key = cell_key(origin, table_size);
    let mut x: i32 = 3;
    loop {
        let candidate = GridCell { x, y: 0 };
        if cell_key(candidate, table_size) == origin_key {
            return candidate;
        }
        x += 1;
        assert!(x < 100_000, "no colliding cell found");
    }
}

#[test]
fn test_collision_tolerance() {
    // Two particles make the table hold 4 buckets; find a geometrically
    // distant cell that shares the origin cell's bucket key.
    let table_size: usize = 4;
    let origin = GridCell { x: 0, y: 0 };
    let far = find_colliding_cell(table_size);
    assert_ne!(origin, far);
    assert_eq!(cell_key(origin, table_size), cell_key(far, table_size));

    // Positions realising those cells, with cell_size = 1.0.
    let origin_pos = (0.25f32, 0.25f32);
    let far_pos = (far.x as f32 + 0.5, 0.5f32);

    let particles = vec![(0u32, origin), (1u32, far)];
    let mut index = SpatialIndex::new();
    index.update(2, &particles);

    // A query touching either cell returns the members of both without
    // error...
    let near_origin = index.potential_neighbours(origin);
    assert!(near_origin.contains(&0));
    assert!(near_origin.contains(&1));
    let near_far = index.potential_neighbours(far);
    assert!(near_far.contains(&0));
    assert!(near_far.contains(&1));

    // ...and the exact distance filter downstream still yields the correct
    // final result.
    let positions = [origin_pos, far_pos];
    let radius = 1.0f32;
    let filtered: Vec<u32> = near_origin
        .into_iter()
        .filter(|&id| {
            let p = positions[id as usize];
            let dx = p.0 - origin_pos.0;
            let dy = p.1 - origin_pos.1;
            (dx * dx + dy * dy).sqrt() <= radius
        })
        .collect();
    assert_eq!(filtered, vec![0]);
}

#[test]
fn test_rebuild_sorts_unsorted_input() {
    // Three cells; the first two are chosen so that the key of `high` is
    // larger than the key of `low` in a table of 6 buckets. Inserting a
    // `high` entry on both sides of a `low` entry leaves the entries
    // unsorted at insertion time, so the grouping below holds only because
    // the rebuild actually sorts its entries by key.
    let table_size: usize = 6;
    let a = GridCell { x: 10, y: 20 };
    let mut bx: i32 = -30;
    let b = loop {
        let candidate = GridCell { x: bx, y: 7 };
        if cell_key(candidate, table_size) != cell_key(a, table_size) {
            break candidate;
        }
        bx -= 1;
        assert!(bx > -100_000, "no cell with a different key found");
    };
    let (high, low) = if cell_key(a, table_size) > cell_key(b, table_size) {
        (a, b)
    } else {
        (b, a)
    };
    assert!(cell_key(high, table_size) > cell_key(low, table_size));

    let particles = vec![(0u32, high), (1u32, low), (2u32, high)];
    let mut index = SpatialIndex::new();
    index.update(3, &particles);

    let in_high = index.entities_in_cell(high);
    assert!(in_high.contains(&0));
    assert!(in_high.contains(&2));
}
