use tools::generator::{bl_from_sqrt, gen, gen_with_limits, GenError, BL_LB, BL_UB, N, SQRT_SCALE, T_SZ};
use tools::geometry::{distance2, is_crossing};
use tools::instance::Input;
use tools::union_find::check_connectivity;

fn connected(n: usize, edges: &[(usize, usize)]) -> bool {
    let mut adj = vec![vec![]; n];
    for &(u, v) in edges {
        adj[u].push(v);
        adj[v].push(u);
    }
    let mut seen = vec![false; n];
    let mut stack = vec![0];
    seen[0] = true;
    while let Some(u) = stack.pop() {
        for &w in &adj[u] {
            if !seen[w] {
                seen[w] = true;
                stack.push(w);
            }
        }
    }
    seen.iter().all(|&s| s)
}

fn no_crossings(inp: &Input) -> bool {
    let c = &inp.coordinates;
    for i in 0..inp.edges.len() {
        for j in 0..inp.edges.len() {
            if i == j {
                continue;
            }
            let (a, b) = inp.edges[i];
            let (p, q) = inp.edges[j];
            if is_crossing(&(c[a], c[b]), &(c[p], c[q])) {
                return false;
            }
        }
    }
    true
}

#[test]
fn generated_instance_is_connected_and_crossing_free() {
    let inp = gen(0, None, None).unwrap();
    assert_eq!(inp.n, N);
    assert_eq!(inp.t_sz, T_SZ);
    assert_eq!(inp.m, inp.edges.len());
    assert!(inp.m >= N - 1);
    assert!((600..=1200).contains(&inp.al));
    assert!((BL_LB..BL_UB).contains(&inp.bl));
    assert!(connected(inp.n, &inp.edges));
    assert!(no_crossings(&inp));
    assert!(inp.edges.iter().all(|&(u, v)| u < v && v < N));
    let c = &inp.coordinates;
    assert!(inp.edges.iter().all(|&(u, v)| distance2(c[u], c[v]) <= 140 * 140));
    assert!(inp.coordinates.iter().all(|&(x, y)| (0..=1000).contains(&x) && (0..=1000).contains(&y)));
    assert_ne!(inp.t[0], 0);
    assert!(inp.t.windows(2).all(|w| w[0] != w[1]));
    assert!(inp.t.iter().all(|&v| v < N));
    for i in 0..N {
        for j in i + 1..N {
            assert!(distance2(inp.coordinates[i], inp.coordinates[j]) >= 400);
        }
    }
}

#[test]
fn generation_is_deterministic() {
    let a = gen(7, Some(700), Some(10)).unwrap();
    let b = gen(7, Some(700), Some(10)).unwrap();
    assert_eq!(a.al, 700);
    assert_eq!(a.bl, 10);
    assert_eq!(a.edges, b.edges);
    assert_eq!(a.t, b.t);
    assert_eq!(a.coordinates, b.coordinates);
    let c = gen(8, Some(700), Some(10)).unwrap();
    assert_ne!(a.coordinates, c.coordinates);
}

#[test]
fn size_overrides_are_checked() {
    assert_eq!(gen(1, Some(599), None).unwrap_err(), GenError::AlOutOfRange(599));
    assert_eq!(gen(1, Some(1201), Some(3)).unwrap_err(), GenError::AlOutOfRange(1201));
    assert_eq!(gen(1, Some(600), Some(25)).unwrap_err(), GenError::BlOutOfRange(25));
    assert_eq!(gen(1, None, Some(3)).unwrap_err(), GenError::BlOutOfRange(3));
}

#[test]
fn attempt_cap_ends_generation() {
    assert_eq!(gen_with_limits(3, None, None, 0, 1000).unwrap_err(), GenError::AttemptsExhausted);
    assert_eq!(gen_with_limits(3, None, None, 5, 10).unwrap_err(), GenError::AttemptsExhausted);
}

#[test]
fn buffer_size_is_floor_of_square() {
    assert_eq!(bl_from_sqrt(2 * SQRT_SCALE), 4);
    assert_eq!(bl_from_sqrt(3 * SQRT_SCALE), 9);
    assert_eq!(bl_from_sqrt(3 * SQRT_SCALE - 1), 8);
    assert_eq!(bl_from_sqrt(5 * SQRT_SCALE - 1), 24);
}

#[test]
fn connectivity_follows_selected_edges() {
    let edges = vec![(0, 1), (1, 2), (2, 3), (0, 3)];
    assert!(check_connectivity(4, &edges, &vec![true, true, true, true]));
    assert!(check_connectivity(4, &edges, &vec![false, true, true, true]));
    assert!(!check_connectivity(4, &edges, &vec![false, true, false, true]));
    assert!(!check_connectivity(5, &edges, &vec![true, true, true, true]));
    assert!(check_connectivity(1, &vec![], &vec![]));
}
