use rualign::array_2d::Array2d;
use rualign::lattice::{admissible_chunks, chunk_distance};

fn logsumexp(a: f64, b: f64) -> f64 {
    if a > b {
        a + ((b - a).exp() + 1.0).ln()
    } else {
        b + ((a - b).exp() + 1.0).ln()
    }
}

// Drives the library's chunk enumeration and scratch grid through one
// forward and one backward pass with a flat score, the way the trainer
// does, and checks the anchor and total-partition identities on the
// result.
#[test]
fn forward_backward_partition_agrees() {
    let n = 3usize;
    let m = 2usize;
    let score = -(6f64).ln();
    let chunks = admissible_chunks(n, m);

    let mut alphas: Array2d<f64> = Array2d::new(n + 1, m + 1, f64::NEG_INFINITY);
    *alphas.get_mut(0, 0) = 0.0;
    for c in chunks.iter() {
        let d = chunk_distance(c) as f64;
        let reached = *alphas.get(c.i, c.j).unwrap() + score * d;
        let cell = *alphas.get(c.p, c.q).unwrap();
        *alphas.get_mut(c.p, c.q) = logsumexp(cell, reached);
    }

    let mut betas: Array2d<f64> = Array2d::new(n + 1, m + 1, f64::NEG_INFINITY);
    *betas.get_mut(n, m) = 0.0;
    for c in chunks.iter().rev() {
        let d = chunk_distance(c) as f64;
        let reached = *betas.get(c.p, c.q).unwrap() + score * d;
        let cell = *betas.get(c.i, c.j).unwrap();
        *betas.get_mut(c.i, c.j) = logsumexp(cell, reached);
    }

    // The passes never touch their anchor cells.
    assert_eq!(*alphas.get(0, 0).unwrap(), 0.0);
    assert_eq!(*betas.get(n, m).unwrap(), 0.0);
    // Total partition consistency.
    let z_forward = *alphas.get(n, m).unwrap();
    let z_backward = *betas.get(0, 0).unwrap();
    assert!(z_forward.is_finite());
    assert!((z_forward - z_backward).abs() < 1e-9);
}
