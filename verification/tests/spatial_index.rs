//! Behavioural tests of the spatial hash grid, including the reference
//! neighbour-search comparison against brute force.

use rand::RngExt;
use rand::SeedableRng;
use rand::rngs::StdRng;

use spatial_grid::hashing::GridCell;
use spatial_grid::spatial_index::SpatialIndex;

fn position_to_cell(p: (f32, f32), cell_size: f32) -> GridCell {
    GridCell {
        x: (p.0 / cell_size).floor() as i32,
        y: (p.1 / cell_size).floor() as i32,
    }
}

fn distance(a: (f32, f32), b: (f32, f32)) -> f32 {
    let dx = a.0 - b.0;
    let dy = a.1 - b.1;
    (dx * dx + dy * dy).sqrt()
}

fn random_points(rng: &mut StdRng, num_points: usize) -> Vec<(f32, f32)> {
    let mut points = Vec::new();
    for _ in 0..num_points {
        points.push((rng.random_range(-3.0..3.0), rng.random_range(-3.0..3.0)))
    }
    points
}

fn particles_of(points: &[(f32, f32)], cell_size: f32) -> Vec<(u32, GridCell)> {
    points
        .iter()
        .enumerate()
        .map(|(index, &point)| {
            (
                u32::try_from(index).unwrap(),
                position_to_cell(point, cell_size),
            )
        })
        .collect()
}

#[test]
fn test_spatial_index_empty() {
    let mut index = SpatialIndex::new();
    let particles: Vec<(u32, GridCell)> = Vec::new();
    index.update(0, &particles);
    assert_eq!(
        index
            .potential_neighbours(position_to_cell((1.0, -0.1), 1.0))
            .len(),
        0
    );
}

#[test]
fn test_spatial_index() {
    let radius = 1.0;
    let mut rng = StdRng::seed_from_u64(1000);
    let points = random_points(&mut rng, 1000);

    let mut index = SpatialIndex::new();
    let particles = particles_of(&points, radius);
    index.update(points.len(), &particles);

    for (i, &x_i) in points.iter().enumerate() {
        let mut index_neighbours = index
            .potential_neighbours(position_to_cell(x_i, radius))
            .into_iter()
            .map(|entity| usize::try_from(entity).unwrap())
            .filter_map(|j| {
                if distance(x_i, points[j]) <= radius {
                    Some((j, points[j]))
                } else {
                    None
                }
            })
            .collect::<Vec<(usize, (f32, f32))>>();
        index_neighbours.sort_by_key(|x| x.0);

        let actual_neighbours = points
            .iter()
            .enumerate()
            .filter_map(|(j, &x_j)| {
                if distance(x_i, x_j) <= radius {
                    Some((j, x_j))
                } else {
                    None
                }
            })
            .collect::<Vec<(usize, (f32, f32))>>();

        assert_eq!(
            index_neighbours, actual_neighbours,
            "The neighbours of point {} {:?} are wrong",
            i, x_i
        );
    }
}

#[test]
fn test_denormalized_neighbours() {
    let radius = 1.0;
    let mut rng = StdRng::seed_from_u64(10);
    let points = random_points(&mut rng, 10);

    let mut spatial_index = SpatialIndex::new();
    let particles = particles_of(&points, radius);
    spatial_index.update(points.len(), &particles);

    let mut neighbour_indices = Vec::new();
    let mut neighbour_indices_start = Vec::new();
    let mut current_index: usize = 0;

    neighbour_indices.clear();
    for &point in points.iter() {
        neighbour_indices_start.push(current_index);
        for neighbour_index in spatial_index.potential_neighbours(position_to_cell(point, radius)) {
            current_index += 1;
            neighbour_indices.push(neighbour_index);
        }
    }
    neighbour_indices_start.push(neighbour_indices.len());

    println!("{:?}", neighbour_indices);
    println!("{:?}", neighbour_indices_start);
}

#[test]
fn test_single_particle_at_origin() {
    let mut index = SpatialIndex::new();
    let origin_cell = position_to_cell((0.0, 0.0), 1.0);
    let particles = vec![(0u32, origin_cell)];
    index.update(1, &particles);

    let candidates = index.potential_neighbours(origin_cell);
    let occurrences = candidates.iter().filter(|&&id| id == 0).count();
    assert_eq!(occurrences, 1);
}

#[test]
fn test_membership_round_trip() {
    // Several particles share cells, so bucket runs have more than one entry.
    let cells = [
        GridCell { x: 0, y: 0 },
        GridCell { x: 0, y: 0 },
        GridCell { x: 1, y: 0 },
        GridCell { x: 5, y: -3 },
        GridCell { x: 5, y: -3 },
        GridCell { x: 5, y: -3 },
        GridCell { x: -7, y: 2 },
    ];
    let particles: Vec<(u32, GridCell)> = cells
        .iter()
        .enumerate()
        .map(|(i, &c)| (i as u32, c))
        .collect();

    let mut first = SpatialIndex::new();
    first.update(particles.len(), &particles);
    let mut second = SpatialIndex::new();
    second.update(particles.len(), &particles);

    for &cell in cells.iter() {
        let mut a = first.entities_in_cell(cell);
        let mut b = second.entities_in_cell(cell);
        a.sort();
        b.sort();
        assert_eq!(a, b);
    }
}

#[test]
fn test_rebuild_discards_previous_contents() {
    let cell = GridCell { x: 2, y: 2 };
    let far_cell = GridCell { x: 40, y: -40 };
    let first_particles = vec![
        (10u32, cell),
        (11u32, cell),
        (12u32, far_cell),
        (13u32, far_cell),
        (14u32, cell),
    ];
    let mut index = SpatialIndex::new();
    index.update(first_particles.len(), &first_particles);

    let second_particles = vec![(3u32, cell), (4u32, far_cell)];
    index.update(second_particles.len(), &second_particles);

    // No id of the first rebuild may survive; the buckets hold the new ids
    // (either bucket may also see the other new id if the two cells collide
    // in the now smaller table).
    let in_cell = index.entities_in_cell(cell);
    assert!(in_cell.contains(&3));
    assert!(in_cell.iter().all(|&id| id == 3 || id == 4));
    let in_far = index.entities_in_cell(far_cell);
    assert!(in_far.contains(&4));
    assert!(in_far.iter().all(|&id| id == 3 || id == 4));
}

#[test]
fn test_entities_in_cell_groups_shared_cell() {
    let shared = GridCell { x: 3, y: -1 };
    let other = GridCell { x: 9, y: 9 };
    let particles = vec![(0u32, shared), (1u32, other), (2u32, shared), (3u32, shared)];
    let mut index = SpatialIndex::new();
    index.update(particles.len(), &particles);

    let mut in_shared = index.entities_in_cell(shared);
    in_shared.sort();
    // The shared cell's bucket holds at least its own three particles; a
    // hash collision may add the other id, which exact filtering downstream
    // would discard.
    assert!(in_shared.contains(&0));
    assert!(in_shared.contains(&2));
    assert!(in_shared.contains(&3));
}
