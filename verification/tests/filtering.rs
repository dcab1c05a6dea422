use mst_estimate::MstError;
use mst_estimate::graph::Edge;
use mst_estimate::kruskals::mst_select;
use rand::Rng;
use rand::SeedableRng;
use rand::rngs::StdRng;

/// One filtered complete-graph trial: draw a uniform weight per pair, keep
/// the pairs at or under the threshold, and try to span them.
fn filtered_trial(n: u32, threshold: f64, rng: &mut StdRng) -> Result<f64, MstError> {
    let mut weighted: Vec<(u32, u32, f64)> = Vec::new();
    for u in 0..n {
        for v in 0..u {
            let w = rng.gen_range(0.0..1.0);
            if w <= threshold {
                weighted.push((u, v, w));
            }
        }
    }
    weighted.sort_by(|a, b| a.2.total_cmp(&b.2));
    let edges: Vec<Edge> = weighted.iter().map(|&(u, v, _)| Edge { u, v }).collect();
    let picked = mst_select(n, &edges)?;
    Ok(picked.iter().map(|&i| weighted[i].2).sum())
}

#[test]
fn generous_filter_still_spans() {
    let n = 64u32;
    // the customary threshold: 2 / sqrt(n)
    let threshold = 2.0 / (n as f64).sqrt();
    let mut rng = StdRng::seed_from_u64(0x5eed_0003);
    for _ in 0..30 {
        assert!(filtered_trial(n, threshold, &mut rng).is_ok());
    }
}

#[test]
fn starving_filter_raises_the_disconnection_rate() {
    let n = 64u32;
    let generous = 2.0 / (n as f64).sqrt();
    let starving = generous / 10.0;
    let trials: u32 = 40;
    let mut rng = StdRng::seed_from_u64(0x5eed_0004);
    let disconnected_generous = (0..trials)
        .filter(|_| filtered_trial(n, generous, &mut rng) == Err(MstError::Disconnected))
        .count();
    let disconnected_starving = (0..trials)
        .filter(|_| filtered_trial(n, starving, &mut rng) == Err(MstError::Disconnected))
        .count();
    assert!(
        disconnected_starving > disconnected_generous,
        "starving {disconnected_starving} of {trials}, generous {disconnected_generous} of {trials}"
    );
}

#[test]
fn filtering_never_changes_an_answer_it_keeps() {
    // when the filtered graph still spans, its MST is the unfiltered MST:
    // every accepted edge weighs at most the threshold
    let n = 32u32;
    let threshold = 2.0 / (n as f64).sqrt();
    let mut rng = StdRng::seed_from_u64(0x5eed_0005);
    for _ in 0..10 {
        let mut weighted: Vec<(u32, u32, f64)> = Vec::new();
        for u in 0..n {
            for v in 0..u {
                weighted.push((u, v, rng.gen_range(0.0..1.0)));
            }
        }
        weighted.sort_by(|a, b| a.2.total_cmp(&b.2));
        let edges: Vec<Edge> = weighted.iter().map(|&(u, v, _)| Edge { u, v }).collect();
        let full: f64 = mst_select(n, &edges)
            .expect("a complete graph spans")
            .iter()
            .map(|&i| weighted[i].2)
            .sum();
        let kept: Vec<(u32, u32, f64)> = weighted
            .iter()
            .copied()
            .filter(|&(_, _, w)| w <= threshold)
            .collect();
        let kept_edges: Vec<Edge> = kept.iter().map(|&(u, v, _)| Edge { u, v }).collect();
        if let Ok(picked) = mst_select(n, &kept_edges) {
            let filtered: f64 = picked.iter().map(|&i| kept[i].2).sum();
            assert_eq!(filtered, full);
        }
    }
}
