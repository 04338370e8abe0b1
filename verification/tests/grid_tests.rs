use ireland_dino_finder::grid::{boundary_distance, idx, probes_in_grid, source_in_interior, Probe};

#[test]
fn idx_is_row_major() {
    assert_eq!(idx(0, 0, 7), 0);
    assert_eq!(idx(3, 0, 7), 3);
    assert_eq!(idx(0, 1, 7), 7);
    assert_eq!(idx(6, 4, 7), 34);
}

#[test]
fn idx_covers_the_grid_once() {
    let (nx, nz) = (5, 4);
    let mut seen = vec![false; nx * nz];
    for z in 0..nz {
        for x in 0..nx {
            let i = idx(x, z, nx);
            assert!(!seen[i]);
            seen[i] = true;
        }
    }
    assert!(seen.iter().all(|s| *s));
}

#[test]
fn source_must_be_in_the_interior() {
    assert!(source_in_interior(30, 30, 61, 61));
    assert!(source_in_interior(1, 1, 3, 3));
    assert!(!source_in_interior(0, 1, 3, 3));
    assert!(!source_in_interior(2, 1, 3, 3));
    assert!(!source_in_interior(1, 2, 3, 3));
    assert!(!source_in_interior(1, 0, 3, 3));
}

#[test]
fn probes_must_be_on_the_grid() {
    let inside = vec![Probe { x: 0, z: 0 }, Probe { x: 60, z: 60 }];
    assert!(probes_in_grid(&inside, 61, 61));
    let outside = vec![Probe { x: 0, z: 0 }, Probe { x: 61, z: 3 }];
    assert!(!probes_in_grid(&outside, 61, 61));
    assert!(probes_in_grid(&Vec::new(), 1, 1));
}

#[test]
fn boundary_distance_is_mirror_symmetric() {
    assert_eq!(boundary_distance(0, 30, 61, 61), 0);
    assert_eq!(boundary_distance(30, 30, 61, 61), 30);
    assert_eq!(boundary_distance(5, 40, 61, 61), 5);
    assert_eq!(boundary_distance(30, 58, 61, 61), 2);
    for x in 0..11 {
        for z in 0..7 {
            let d = boundary_distance(x, z, 11, 7);
            assert_eq!(d, boundary_distance(10 - x, z, 11, 7));
            assert_eq!(d, boundary_distance(x, 6 - z, 11, 7));
        }
    }
}
