use mst_estimate::MstError;
use mst_estimate::graph::Edge;
use mst_estimate::kruskals::UnionFind;
use mst_estimate::kruskals::mst_select;
use rand::Rng;
use rand::SeedableRng;
use rand::rngs::StdRng;

/// MST weight of a weighted edge list: sort by weight, select, sum.
fn mst_weight(n: u32, weighted: &[(u32, u32, f64)]) -> Result<f64, MstError> {
    let mut sorted: Vec<(u32, u32, f64)> = weighted.to_vec();
    sorted.sort_by(|a, b| a.2.total_cmp(&b.2));
    let edges: Vec<Edge> = sorted.iter().map(|&(u, v, _)| Edge { u, v }).collect();
    let picked = mst_select(n, &edges)?;
    Ok(picked.iter().map(|&i| sorted[i].2).sum())
}

#[test]
fn known_four_vertex_graph_weighs_six() {
    let weighted = [
        (0u32, 1u32, 1.0f64),
        (1, 2, 2.0),
        (2, 3, 3.0),
        (0, 3, 10.0),
    ];
    assert_eq!(mst_weight(4, &weighted), Ok(6.0));
}

#[test]
fn selection_is_independent_of_input_order() {
    let weighted = [
        (0u32, 3u32, 10.0f64),
        (2, 3, 3.0),
        (0, 1, 1.0),
        (1, 2, 2.0),
    ];
    assert_eq!(mst_weight(4, &weighted), Ok(6.0));
}

#[test]
fn uncovered_vertices_are_reported_disconnected() {
    // 5 vertices, 3 edges that span only {0, 1, 2}: never a numeric weight
    let weighted = [(0u32, 1u32, 0.5f64), (1, 2, 0.25), (0, 2, 0.125)];
    assert_eq!(mst_weight(5, &weighted), Err(MstError::Disconnected));
}

#[test]
fn split_components_are_reported_disconnected() {
    let weighted = [(0u32, 1u32, 0.5f64), (2, 3, 0.25)];
    assert_eq!(mst_weight(4, &weighted), Err(MstError::Disconnected));
}

#[test]
fn mst_select_rejects_too_few_vertices() {
    assert_eq!(mst_select(0, &Vec::new()), Err(MstError::InvalidArgument));
    assert_eq!(mst_select(1, &Vec::new()), Err(MstError::InvalidArgument));
    assert_eq!(
        mst_weight(1, &[(0u32, 0u32, 0.25f64)]),
        Err(MstError::InvalidArgument)
    );
}

#[test]
fn two_vertices_one_edge() {
    let weighted = [(0u32, 1u32, 0.75f64)];
    assert_eq!(mst_weight(2, &weighted), Ok(0.75));
}

/// The same scan without the early exit: walk every sorted edge to the end.
fn mst_weight_full_scan(n: u32, weighted: &[(u32, u32, f64)]) -> Result<f64, MstError> {
    if n < 2 {
        return Err(MstError::InvalidArgument);
    }
    let mut sorted: Vec<(u32, u32, f64)> = weighted.to_vec();
    sorted.sort_by(|a, b| a.2.total_cmp(&b.2));
    let mut uf = UnionFind::new(n);
    let mut needed: u32 = n - 1;
    let mut total: f64 = 0.0;
    for &(u, v, w) in sorted.iter() {
        if uf.find(u) != uf.find(v) {
            uf.union(u, v);
            total += w;
            needed -= 1;
        }
    }
    if needed == 0 { Ok(total) } else { Err(MstError::Disconnected) }
}

#[test]
fn early_exit_changes_nothing_observable() {
    let mut rng = StdRng::seed_from_u64(0x5eed_0001);
    for trial in 0..20 {
        let n: u32 = 10 + trial;
        let mut weighted: Vec<(u32, u32, f64)> = Vec::new();
        for u in 0..n {
            for v in 0..u {
                weighted.push((u, v, rng.gen_range(0.0..1.0)));
            }
        }
        let early = mst_weight(n, &weighted);
        let full = mst_weight_full_scan(n, &weighted);
        assert_eq!(early, full);
        assert!(early.is_ok());
    }
}
