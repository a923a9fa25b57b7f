use knn_periodic::geometry::{dist, point_generator, Point, SCALE};
use knn_periodic::neighbors::SENTINEL_DIST;
use knn_periodic::search::{brute_cal_nearest, nearest_neighbors, new_table};

fn pt(x: u64, y: u64, z: u64) -> Point {
    Point { x, y, z }
}

/// Four collinear points with one wrap-around tie: particle 3 at 0.9 ties
/// particle 1 at 0.1 for the neighbors of particle 0 (both at squared
/// distance 0.01).  The later-seen tying candidate takes the earlier slot,
/// so particle 0 retains [3, 1] and particle 2 is evicted.
#[test]
fn four_point_scenario_with_tie() {
    let points = vec![
        pt(0, 0, 0),
        pt(100_000, 0, 0),
        pt(200_000, 0, 0),
        pt(900_000, 0, 0),
    ];
    let table = nearest_neighbors(&points, 2);
    assert_eq!(table.len(), 4);

    // Particle 0: candidates 1 (0.01), 2 (0.04), 3 (0.01, wrapped).
    assert_eq!(table[0].slot(1).id, 3);
    assert_eq!(table[0].slot(1).dist, 10_000_000_000);
    assert_eq!(table[0].slot(2).id, 1);
    assert_eq!(table[0].slot(2).dist, 10_000_000_000);
    assert_eq!(table[0].threshold(), 10_000_000_000);

    // Particle 1: candidates 0 (0.01), 2 (0.01), 3 (0.04, wrapped).
    assert_eq!(table[1].slot(1).id, 2);
    assert_eq!(table[1].slot(2).id, 0);
    assert_eq!(table[1].slot(1).dist, 10_000_000_000);
    assert_eq!(table[1].slot(2).dist, 10_000_000_000);

    // Particle 2: candidates 0 (0.04), 1 (0.01), 3 (0.09, wrapped).
    assert_eq!(table[2].slot(1).id, 1);
    assert_eq!(table[2].slot(1).dist, 10_000_000_000);
    assert_eq!(table[2].slot(2).id, 0);
    assert_eq!(table[2].slot(2).dist, 40_000_000_000);

    // Particle 3: candidates 0 (0.01, wrapped), 1 (0.04, wrapped), 2 (0.09).
    assert_eq!(table[3].slot(1).id, 0);
    assert_eq!(table[3].slot(1).dist, 10_000_000_000);
    assert_eq!(table[3].slot(2).id, 1);
    assert_eq!(table[3].slot(2).dist, 40_000_000_000);
}

#[test]
fn rows_are_sorted_and_never_name_their_owner() {
    let mut points = vec![pt(0, 0, 0); 30];
    point_generator(&mut points);
    let k = 5;
    let table = nearest_neighbors(&points, k);
    assert_eq!(table.len(), points.len());
    for (i, row) in table.iter().enumerate() {
        assert_eq!(row.num_slots(), k + 1);
        for q in 1..k {
            assert!(row.slot(q).dist <= row.slot(q + 1).dist);
        }
        for q in 1..=k {
            // More points than slots: every slot is filled and genuine.
            let entry = row.slot(q);
            assert!(entry.dist < SENTINEL_DIST);
            assert_ne!(entry.id, i);
            assert!(entry.id < points.len());
            assert_eq!(entry.dist, dist(&points[i], &points[entry.id]));
        }
        // Distinct identifiers.
        for a in 1..=k {
            for b in (a + 1)..=k {
                assert_ne!(row.slot(a).id, row.slot(b).id);
            }
        }
        // The threshold mirrors the worst retained slot.
        assert_eq!(row.threshold(), row.slot(k).dist);
    }
}

#[test]
fn no_closer_neighbor_is_missed() {
    let mut points = vec![pt(0, 0, 0); 25];
    point_generator(&mut points);
    let k = 4;
    let table = nearest_neighbors(&points, k);
    for (i, row) in table.iter().enumerate() {
        let retained: Vec<usize> = (1..=k).map(|q| row.slot(q).id).collect();
        for j in 0..points.len() {
            if j != i && !retained.contains(&j) {
                assert!(dist(&points[i], &points[j]) >= row.slot(k).dist);
            }
        }
    }
}

#[test]
fn rerunning_the_search_is_bit_identical() {
    let mut points = vec![pt(0, 0, 0); 20];
    point_generator(&mut points);
    let k = 3;
    let first = nearest_neighbors(&points, k);
    // A second, freshly sentinel-initialized table, filled by the in-place
    // entry point.
    let mut second = new_table(points.len(), k);
    brute_cal_nearest(&points, &mut second);
    assert_eq!(first.len(), second.len());
    for (a, b) in first.iter().zip(second.iter()) {
        assert_eq!(a.num_slots(), b.num_slots());
        for q in 0..a.num_slots() {
            assert_eq!(a.slot(q), b.slot(q));
        }
    }
}

#[test]
fn too_few_particles_leave_sentinel_slots() {
    let points = vec![pt(0, 0, 0), pt(100_000, 0, 0), pt(300_000, 0, 0)];
    let table = nearest_neighbors(&points, 4);
    for (i, row) in table.iter().enumerate() {
        // Two real candidates fill the two leading slots, in order.
        assert!(row.slot(1).dist <= row.slot(2).dist);
        for q in 1..=2 {
            assert!(row.slot(q).dist < SENTINEL_DIST);
            assert_ne!(row.slot(q).id, i);
        }
        // The rest still hold the sentinel, and so does the threshold.
        assert_eq!(row.slot(3).dist, SENTINEL_DIST);
        assert_eq!(row.slot(4).dist, SENTINEL_DIST);
        assert_eq!(row.threshold(), SENTINEL_DIST);
    }
}

#[test]
fn single_axis_ring_neighbors() {
    // Eight evenly spaced points on one axis: each particle's two nearest
    // are its ring neighbors at squared distance 0.125^2.
    let n: u64 = 8;
    let step = SCALE / n;
    let points: Vec<Point> = (0..n).map(|m| pt(m * step, 0, 0)).collect();
    let table = nearest_neighbors(&points, 2);
    let expect = (step as u64) * (step as u64);
    for (i, row) in table.iter().enumerate() {
        let left = (i + 7) % 8;
        let right = (i + 1) % 8;
        assert_eq!(row.slot(1).dist, expect);
        assert_eq!(row.slot(2).dist, expect);
        let ids = [row.slot(1).id, row.slot(2).id];
        assert!(ids.contains(&left) && ids.contains(&right));
    }
}
