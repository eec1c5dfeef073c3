use hexcluster::cluster::{
    generate_cluster, generate_cluster_with, ACCEPT_BELOW, DEFAULT_MAX_ITERATIONS, DRAW_SCALE,
};
use hexcluster::hex::HexCoord;

fn cells(pairs: &[(i32, i32)]) -> Vec<HexCoord> {
    pairs.iter().map(|&(x, y)| HexCoord::new(x, y)).collect()
}

fn assert_unique(r: &[HexCoord]) {
    for i in 0..r.len() {
        for j in (i + 1)..r.len() {
            assert_ne!(r[i], r[j], "cell {:?} occurs twice", r[i]);
        }
    }
}

#[test]
fn neighbors_of_origin_follow_direction_order() {
    let n = HexCoord::origin().neighbors();
    assert_eq!(
        n.to_vec(),
        cells(&[(0, 1), (1, 0), (1, -1), (0, -1), (-1, 0), (-1, 1)])
    );
}

#[test]
fn neighbors_of_offset_cell() {
    let n = HexCoord::new(3, -2).neighbors();
    assert_eq!(
        n.to_vec(),
        cells(&[(3, -1), (4, -2), (4, -3), (3, -3), (2, -2), (2, -1)])
    );
}

#[test]
fn all_rejecting_draws_give_origin_alone() {
    let draws = vec![DRAW_SCALE; DEFAULT_MAX_ITERATIONS];
    let r = generate_cluster_with(&draws, DEFAULT_MAX_ITERATIONS);
    assert_eq!(r, vec![HexCoord::origin()]);
}

#[test]
fn draw_at_threshold_is_rejected() {
    let draws = vec![ACCEPT_BELOW; 10];
    let r = generate_cluster_with(&draws, 10);
    assert_eq!(r, vec![HexCoord::origin()]);
}

#[test]
fn all_accepting_draws_explore_until_cap() {
    let draws = vec![0u32; DEFAULT_MAX_ITERATIONS];
    let r = generate_cluster_with(&draws, DEFAULT_MAX_ITERATIONS);
    let expected = cells(&[
        (0, 0), (0, 1), (1, 0), (1, -1), (0, -1), (-1, 0), (-1, 1), (0, 2), (1, 1),
        (-1, 2), (2, 0), (2, -1), (2, -2), (1, -2), (0, -2), (-1, -1), (-2, 0), (-2, 1),
        (-2, 2), (0, 3), (1, 2), (-1, 3), (2, 1), (-2, 3), (3, 0), (3, -1), (3, -2),
        (3, -3), (2, -3), (1, -3), (0, -3), (-1, -2), (-2, -1),
    ]);
    assert_eq!(r.len(), 33);
    assert_eq!(r, expected);
    assert!(r.len() <= DEFAULT_MAX_ITERATIONS);
}

#[test]
fn pop_cap_counts_repeated_frontier_entries() {
    // The tenth pop meets (1, 0) a second time; it still counts toward the cap.
    let r = generate_cluster_with(&vec![0u32; 10], 10);
    assert_eq!(
        r,
        cells(&[(0, 0), (0, 1), (1, 0), (1, -1), (0, -1), (-1, 0), (-1, 1), (0, 2), (1, 1)])
    );
    let r = generate_cluster_with(&vec![0u32; 7], 7);
    assert_eq!(r.len(), 7);
}

#[test]
fn rejected_cells_do_not_expand() {
    let draws = vec![0, 0, 800_000, 699_999, 700_000, 5, 999_999, 0, 0, 0, 0, 0, 0];
    let r = generate_cluster_with(&draws, draws.len());
    assert_eq!(
        r,
        cells(&[(0, 0), (0, 1), (1, -1), (-1, 0), (0, 2), (1, 1), (-1, 2)])
    );
}

#[test]
fn origin_accepted_whatever_its_draw() {
    let r = generate_cluster_with(&vec![u32::MAX], 1);
    assert_eq!(r, vec![HexCoord::origin()]);
}

#[test]
fn zero_pops_give_empty_cluster() {
    let r = generate_cluster_with(&Vec::new(), 0);
    assert!(r.is_empty());
}

#[test]
fn random_cluster_holds_origin_once_and_no_duplicates() {
    for _ in 0..50 {
        let r = generate_cluster(DEFAULT_MAX_ITERATIONS);
        assert!(!r.is_empty());
        assert!(r.len() <= DEFAULT_MAX_ITERATIONS);
        assert_eq!(r[0], HexCoord::origin());
        assert_eq!(r.iter().filter(|c| **c == HexCoord::origin()).count(), 1);
        assert_unique(&r);
    }
}

#[test]
fn random_cluster_is_connected() {
    let r = generate_cluster(DEFAULT_MAX_ITERATIONS);
    for (i, c) in r.iter().enumerate().skip(1) {
        let n = c.neighbors();
        assert!(r[..i].iter().any(|p| n.contains(p)), "{:?} has no earlier neighbour", c);
    }
}
