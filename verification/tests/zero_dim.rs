use mst_estimate::MstError;
use mst_estimate::fast_zero_dim::ZeroDimScan;
use mst_estimate::graph::Edge;
use mst_estimate::kruskals::mst_select;
use rand::Rng;
use rand::SeedableRng;
use rand::rngs::StdRng;
use rand_distr::Distribution;
use rand_distr::Exp;

#[test]
fn zero_dim_rejects_too_few_vertices() {
    assert!(matches!(ZeroDimScan::new(0), Err(MstError::InvalidArgument)));
    assert!(matches!(ZeroDimScan::new(1), Err(MstError::InvalidArgument)));
    assert!(ZeroDimScan::new(2).is_ok());
}

#[test]
fn offers_accept_exactly_the_joining_pairs() {
    let mut scan = ZeroDimScan::new(3).unwrap();
    assert!(!scan.complete());
    assert!(!scan.offer(0, 0), "a self-pair joins nothing");
    assert!(scan.offer(0, 1));
    assert!(!scan.offer(1, 0), "already connected");
    assert!(!scan.complete());
    assert!(scan.offer(1, 2));
    assert!(scan.complete());
    assert!(!scan.offer(0, 2), "a complete tree accepts nothing more");
}

#[test]
fn random_offers_eventually_span() {
    // the random draws stay inside the vertex range, so the scan completes
    let mut scan = ZeroDimScan::new(4).unwrap();
    let mut accepted: u32 = 0;
    for _ in 0..100_000 {
        if scan.offer_random() {
            accepted += 1;
        }
        if scan.complete() {
            break;
        }
    }
    assert!(scan.complete());
    assert_eq!(accepted, 3);
}

/// One zero-dimensional trial: candidate edges arrive with uniform random
/// endpoints, the cumulative weight advances by an exponential gap per
/// candidate, and each accepted candidate contributes the cumulative weight.
fn fast_zero_dim_weight(n: u32, rng: &mut StdRng) -> f64 {
    let mut scan = ZeroDimScan::new(n).unwrap();
    let exp = Exp::new((n as f64) * (n as f64) / 2.0 - 1.0).unwrap();
    let mut weight = 0.0f64;
    let mut total = 0.0f64;
    loop {
        let u = rng.gen_range(0..n);
        let v = rng.gen_range(0..n);
        weight += exp.sample(rng);
        if scan.offer(u, v) {
            total += weight;
        }
        if scan.complete() {
            return total;
        }
    }
}

/// One ground-truth trial: the full complete graph with uniform weights.
fn complete_graph_weight(n: u32, rng: &mut StdRng) -> f64 {
    let mut weighted: Vec<(u32, u32, f64)> = Vec::new();
    for u in 0..n {
        for v in 0..u {
            weighted.push((u, v, rng.gen_range(0.0..1.0)));
        }
    }
    weighted.sort_by(|a, b| a.2.total_cmp(&b.2));
    let edges: Vec<Edge> = weighted.iter().map(|&(u, v, _)| Edge { u, v }).collect();
    let picked = mst_select(n, &edges).expect("a complete graph spans");
    picked.iter().map(|&i| weighted[i].2).sum()
}

#[test]
fn zero_dim_estimator_matches_the_ground_truth_path() {
    let n = 100u32;
    let trials: u32 = 400;
    let mut rng = StdRng::seed_from_u64(0x5eed_0002);
    let fast: f64 = (0..trials).map(|_| fast_zero_dim_weight(n, &mut rng)).sum::<f64>()
        / trials as f64;
    let slow: f64 = (0..trials).map(|_| complete_graph_weight(n, &mut rng)).sum::<f64>()
        / trials as f64;
    let relative = (fast - slow).abs() / slow;
    assert!(
        relative < 0.02,
        "zero-dimensional estimate {fast} drifted from ground truth {slow}"
    );
}
