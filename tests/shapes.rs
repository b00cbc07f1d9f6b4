use tools::geometry::{distance2, is_crossing};
use rand_chacha::rand_core::SeedableRng;
use rand_chacha::ChaCha20Rng;
use tools::generator::{construct_planar_graph, sparsify};

#[test]
fn squared_distance() {
    assert_eq!(distance2((0, 0), (3, 4)), 25);
    assert_eq!(distance2((1000, 1000), (0, 0)), 2000000);
    assert_eq!(distance2((5, 5), (5, 5)), 0);
}

#[test]
fn proper_crossing() {
    assert!(is_crossing(&((0, 0), (10, 10)), &((0, 10), (10, 0))));
    assert!(!is_crossing(&((0, 0), (10, 0)), &((0, 5), (10, 5))));
}

#[test]
fn shared_end_point_is_no_crossing() {
    assert!(!is_crossing(&((0, 0), (10, 10)), &((10, 10), (20, 0))));
    assert!(!is_crossing(&((0, 0), (10, 10)), &((0, 0), (10, 0))));
}

#[test]
fn collinear_segments() {
    // overlapping on one line
    assert!(is_crossing(&((0, 0), (10, 0)), &((5, 0), (15, 0))));
    // on one line, apart
    assert!(!is_crossing(&((0, 0), (4, 0)), &((5, 0), (15, 0))));
    // on one line, touching at a shared end: the collinear rule decides
    assert!(is_crossing(&((0, 0), (5, 0)), &((5, 0), (15, 0))));
}

#[test]
fn t_junction_crosses() {
    assert!(is_crossing(&((0, 0), (10, 0)), &((5, 0), (5, 10))));
}

#[test]
fn sparsified_edges_stay_connected() {
    let edges = vec![(0, 1), (1, 2), (2, 3), (0, 3), (0, 2)];
    let mut rng = ChaCha20Rng::seed_from_u64(5);
    // with ratio 0 every removable edge is erased: a spanning tree is left
    let sel = sparsify(4, &edges, &mut rng, 0);
    let kept: Vec<(usize, usize)> = edges.iter().zip(sel.iter()).filter(|(_, &s)| s).map(|(e, _)| *e).collect();
    assert_eq!(kept.len(), 3);
    assert!(tools::union_find::check_connectivity(4, &edges, &sel));
    // with the largest ratio no draw exceeds it: every edge stays
    let sel = sparsify(4, &edges, &mut rng, 4294967295);
    assert_eq!(sel, vec![true; 5]);
}

#[test]
fn planar_graph_attempt() {
    let mut rng = ChaCha20Rng::seed_from_u64(11);
    let mut built = None;
    for _ in 0..20 {
        built = construct_planar_graph(50, &mut rng, 20, 300, 0, 100000);
        if built.is_some() {
            break;
        }
    }
    let (edges, coords) = built.unwrap();
    assert_eq!(coords.len(), 50);
    assert!(edges.len() >= 49);
    let sel = vec![true; edges.len()];
    assert!(tools::union_find::check_connectivity(50, &edges, &sel));
    // too few draws to place the points
    assert!(construct_planar_graph(50, &mut rng, 20, 300, 0, 10).is_none());
}

#[test]
fn thinning_step_keeps_bridges() {
    // a path: every edge is a bridge, so none can go
    let edges = vec![(0, 1), (1, 2)];
    let mut sel = vec![true, true];
    tools::generator::sparsify_step(3, &edges, &mut sel, 0, 4294967295, 0);
    assert_eq!(sel, vec![true, true]);
    // a triangle: the first edge goes when the draw exceeds the ratio
    let edges = vec![(0, 1), (1, 2), (0, 2)];
    let mut sel = vec![true, true, true];
    tools::generator::sparsify_step(3, &edges, &mut sel, 0, 5, 5);
    assert_eq!(sel, vec![true, true, true]);
    tools::generator::sparsify_step(3, &edges, &mut sel, 0, 6, 5);
    assert_eq!(sel, vec![false, true, true]);
}

#[test]
fn next_target_skips_the_current_one() {
    assert_eq!(tools::generator::next_target(5, 3), 3);
    assert_eq!(tools::generator::next_target(5, 5), 6);
    assert_eq!(tools::generator::next_target(0, 0), 1);
}

#[test]
fn greedy_insertion_skips_crossing_candidates() {
    let coords: Vec<(i64, i64)> = vec![(0, 0), (10, 10), (0, 10), (10, 0)];
    let edges = tools::generator::planar_edges(&coords, &vec![(0, 1), (2, 3), (0, 2)], &vec![(1, 3)]);
    assert_eq!(edges, vec![(0, 1), (0, 2), (1, 3)]);
}

#[test]
fn union_find_merges_sets() {
    let mut uf = tools::union_find::UnionFind::new(5);
    uf.unite(0, 1);
    uf.unite(3, 4);
    assert_eq!(uf.root(0), uf.root(1));
    assert_eq!(uf.root(3), uf.root(4));
    assert_ne!(uf.root(0), uf.root(3));
    uf.unite(1, 4);
    assert_eq!(uf.root(0), uf.root(3));
    assert_ne!(uf.root(2), uf.root(0));
}
