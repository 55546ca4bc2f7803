use qaia_co::config::{check_graph, validate_inputs, DsbError, Ratio};
use qaia_co::energy::graph_coloring_energy;
use qaia_co::field::compute_local_field;
use qaia_co::grid::Matrix;
use qaia_co::integrator::{
    discrete_simulated_bifurcation, discrete_simulated_bifurcation_from, q_to_coloring, Annealing,
};
use qaia_co::search::{best_result_from_spins, run_dsb_for_best_result};
use qaia_co::spins::random_spins;
use rand::rngs::StdRng;
use rand::SeedableRng;

fn matrix(rows: Vec<Vec<i64>>, cols: usize) -> Matrix {
    Matrix::from_rows(&rows, cols).unwrap()
}

fn graph(n: usize, edges: &[(usize, usize)]) -> Matrix {
    let mut rows = vec![vec![0i64; n]; n];
    for &(u, v) in edges {
        rows[u][v] = 1;
        rows[v][u] = 1;
    }
    matrix(rows, n)
}

fn four_cycle() -> Matrix {
    graph(4, &[(0, 1), (1, 2), (2, 3), (3, 0)])
}

fn chorded_graph() -> Matrix {
    graph(5, &[(0, 1), (0, 3), (1, 4), (2, 3)])
}

fn step() -> Ratio {
    Ratio { num: 1, den: 20 }
}

fn alpha_init() -> Ratio {
    Ratio { num: 1, den: 2 }
}

fn alpha_scale() -> Ratio {
    Ratio { num: 999, den: 1000 }
}

#[test]
fn proper_coloring_has_zero_energy() {
    let adj = four_cycle();
    let col = matrix(vec![vec![1, 0], vec![0, 1], vec![1, 0], vec![0, 1]], 2);
    assert_eq!(graph_coloring_energy(&adj, &col, 1), 0);
    assert_eq!(graph_coloring_energy(&adj, &col, 7), 0);
}

#[test]
fn shared_color_on_edge_counts_both_directions() {
    let adj = graph(2, &[(0, 1)]);
    let col = matrix(vec![vec![1, 0], vec![1, 0]], 2);
    // one edge, counted from each end: 2, times the penalty 3
    assert_eq!(graph_coloring_energy(&adj, &col, 3), 6);
}

#[test]
fn missing_and_extra_colors_are_squared() {
    let adj = graph(3, &[]);
    let col = matrix(vec![vec![0, 0, 0], vec![1, 1, 1], vec![0, 1, 0]], 3);
    // (1-0)^2 + (1-3)^2 + (1-1)^2 = 5
    assert_eq!(graph_coloring_energy(&adj, &col, 1), 5);
    assert_eq!(graph_coloring_energy(&adj, &col, 2), 10);
}

#[test]
fn improper_coloring_has_positive_energy() {
    let adj = four_cycle();
    let clash = matrix(vec![vec![1, 0], vec![1, 0], vec![1, 0], vec![0, 1]], 2);
    assert!(graph_coloring_energy(&adj, &clash, 1) > 0);
    let uncolored = matrix(vec![vec![1, 0], vec![0, 1], vec![0, 0], vec![0, 1]], 2);
    assert!(graph_coloring_energy(&adj, &uncolored, 1) > 0);
}

#[test]
fn energy_of_empty_graph_is_zero() {
    let adj = matrix(vec![], 0);
    let col = matrix(vec![], 0);
    assert_eq!(graph_coloring_energy(&adj, &col, 1), 0);
}

#[test]
fn local_field_exact_values() {
    let adj = graph(3, &[(0, 1), (1, 2)]);
    let col = matrix(vec![vec![1, 0], vec![1, 1], vec![0, 0]], 2);
    let h = compute_local_field(&adj, &col, 2).to_rows();
    // vertex 0: -4*(1-1) + 2*[col of 1] = [2, 2]
    // vertex 1: -4*(1-2) + 2*([col of 0] + [col of 2]) = [4+2, 4+0]
    // vertex 2: -4*(1-0) + 2*[col of 1] = [-4+2, -4+2]
    assert_eq!(h, vec![vec![2, 2], vec![6, 4], vec![-2, -2]]);
}

#[test]
fn threshold_maps_zero_to_zero() {
    let q = matrix(vec![vec![0, 1, -1], vec![5, 0, -3]], 3);
    let c = q_to_coloring(&q).to_rows();
    assert_eq!(c, vec![vec![0, 1, 0], vec![1, 0, 0]]);
}

#[test]
fn trial_from_fixed_spins_exact_trace() {
    // one edge, two colors, both vertices start on color 0
    let adj = graph(2, &[(0, 1)]);
    let q = matrix(vec![vec![1, -1], vec![1, -1]], 2);
    let (col, trace) =
        discrete_simulated_bifurcation_from(&adj, q, 10, step(), 1, alpha_init(), alpha_scale());
    // The start is symmetric, so both vertices move alike: energies 2 (shared
    // color on the edge, from both ends), 2 (no colors), 6 (both colors),
    // then 2 (no colors), 2 and 2 (both on color 1, momentum passing through
    // zero), 2, 6, 2, 2.
    assert_eq!(trace, vec![2, 2, 6, 2, 2, 2, 2, 6, 2, 2]);
    assert_eq!(col.to_rows(), vec![vec![1, 0], vec![1, 0]]);
}

#[test]
fn trial_stops_at_first_zero() {
    let adj = four_cycle();
    let q = matrix(vec![vec![1, -1], vec![-1, 1], vec![1, -1], vec![-1, 1]], 2);
    let (col, trace) =
        discrete_simulated_bifurcation_from(&adj, q, 100, step(), 1, alpha_init(), alpha_scale());
    assert_eq!(trace, vec![0]);
    assert_eq!(
        col.to_rows(),
        vec![vec![1, 0], vec![0, 1], vec![1, 0], vec![0, 1]]
    );
}

#[test]
fn trace_never_exceeds_budget() {
    let adj = chorded_graph();
    let mut rng = StdRng::seed_from_u64(7);
    for budget in [1usize, 2, 5, 40] {
        let (_, trace) = discrete_simulated_bifurcation(
            &adj, 2, budget, step(), 1, alpha_init(), alpha_scale(), &mut rng,
        );
        assert!(!trace.is_empty() && trace.len() <= budget);
        for (k, e) in trace.iter().enumerate() {
            assert!(*e >= 0);
            if *e == 0 {
                assert_eq!(k, trace.len() - 1);
            }
        }
        if trace.len() < budget {
            assert_eq!(*trace.last().unwrap(), 0);
        }
    }
}

#[test]
fn random_spins_are_signs() {
    let mut rng = StdRng::seed_from_u64(3);
    let q = random_spins(&mut rng, 6, 4).to_rows();
    assert_eq!(q.len(), 6);
    let mut seen_plus = false;
    let mut seen_minus = false;
    for row in &q {
        assert_eq!(row.len(), 4);
        for &s in row {
            assert!(s == 1 || s == -1);
            seen_plus |= s == 1;
            seen_minus |= s == -1;
        }
    }
    assert!(seen_plus && seen_minus);
}

#[test]
fn best_of_keeps_lowest_final_energy_earliest_first() {
    let adj = chorded_graph();
    let mut rng = StdRng::seed_from_u64(11);
    let inits: Vec<Matrix> = (0..12).map(|_| random_spins(&mut rng, 5, 2)).collect();
    let mut finals = Vec::new();
    let mut results = Vec::new();
    for q in &inits {
        let q = Matrix::from_rows(&q.to_rows(), 2).unwrap();
        let (col, trace) =
            discrete_simulated_bifurcation_from(&adj, q, 30, step(), 1, alpha_init(), alpha_scale());
        finals.push(*trace.last().unwrap());
        results.push((col.to_rows(), trace));
    }
    let lowest = *finals.iter().min().unwrap();
    let first = finals.iter().position(|&e| e == lowest).unwrap();
    let (col, trace) =
        best_result_from_spins(&adj, &inits, 30, step(), 1, alpha_init(), alpha_scale());
    assert_eq!(col.to_rows(), results[first].0);
    assert_eq!(trace, results[first].1);
}

#[test]
fn ties_keep_the_earliest_trial() {
    let adj = graph(2, &[(0, 1)]);
    // both trials reach energy 0 at once, with different colorings
    let inits = vec![
        matrix(vec![vec![1, -1], vec![-1, 1]], 2),
        matrix(vec![vec![-1, 1], vec![1, -1]], 2),
    ];
    let (col, trace) =
        best_result_from_spins(&adj, &inits, 5, step(), 1, alpha_init(), alpha_scale());
    assert_eq!(trace, vec![0]);
    assert_eq!(col.to_rows(), vec![vec![1, 0], vec![0, 1]]);
}

#[test]
fn seeded_search_is_deterministic() {
    let adj = chorded_graph();
    let mut rng1 = StdRng::seed_from_u64(42);
    let mut rng2 = StdRng::seed_from_u64(42);
    let a = run_dsb_for_best_result(&adj, 2, 10, 200, step(), 1, alpha_init(), alpha_scale(), &mut rng1)
        .unwrap();
    let b = run_dsb_for_best_result(&adj, 2, 10, 200, step(), 1, alpha_init(), alpha_scale(), &mut rng2)
        .unwrap();
    assert_eq!(a.0.to_rows(), b.0.to_rows());
    assert_eq!(a.1, b.1);
}

#[test]
fn chorded_graph_scenario() {
    let adj = chorded_graph();
    let mut rng = StdRng::seed_from_u64(2024);
    let (col, trace) =
        run_dsb_for_best_result(&adj, 2, 50, 2000, step(), 1, alpha_init(), alpha_scale(), &mut rng)
            .unwrap();
    assert!(!trace.is_empty() && trace.len() <= 2000);
    assert!(*trace.last().unwrap() >= 0);
    let rows = col.to_rows();
    assert_eq!(rows.len(), 5);
    for row in rows {
        assert_eq!(row.len(), 2);
        assert!(row.iter().all(|&x| x == 0 || x == 1));
    }
}

#[test]
fn four_cycle_is_two_colored() {
    let adj = four_cycle();
    let mut rng = StdRng::seed_from_u64(5);
    let (col, trace) =
        run_dsb_for_best_result(&adj, 2, 20, 500, step(), 1, alpha_init(), alpha_scale(), &mut rng)
            .unwrap();
    assert_eq!(*trace.last().unwrap(), 0);
    assert_eq!(graph_coloring_energy(&adj, &col, 1), 0);
}

#[test]
fn zero_restarts_is_a_configuration_error() {
    let adj = four_cycle();
    let mut rng = StdRng::seed_from_u64(1);
    let r = run_dsb_for_best_result(&adj, 2, 0, 10, step(), 1, alpha_init(), alpha_scale(), &mut rng);
    assert_eq!(r.err(), Some(DsbError::ConfigurationError));
}

#[test]
fn malformed_inputs_are_rejected() {
    let mut rng = StdRng::seed_from_u64(1);
    let good = four_cycle();
    let asym = matrix(vec![vec![0, 1], vec![0, 0]], 2);
    let looped = matrix(vec![vec![1, 0], vec![0, 0]], 2);
    let weighted = matrix(vec![vec![0, 2], vec![2, 0]], 2);
    let wide = matrix(vec![vec![0, 1, 0], vec![1, 0, 0]], 3);
    for adj in [&asym, &looped, &weighted, &wide] {
        assert!(!check_graph(adj));
        let r = run_dsb_for_best_result(adj, 2, 3, 10, step(), 1, alpha_init(), alpha_scale(), &mut rng);
        assert_eq!(r.err(), Some(DsbError::InvalidInput));
    }
    assert!(check_graph(&good));
    let bad_params = [
        (0usize, 10usize, step(), 1i64),
        (2, 0, step(), 1),
        (2, 10, Ratio { num: 0, den: 1 }, 1),
        (2, 10, Ratio { num: -1, den: 20 }, 1),
        (2, 10, Ratio { num: 1, den: 0 }, 1),
        // a denominator must be positive
        (2, 10, Ratio { num: -1, den: -20 }, 1),
        (2, 10, step(), 0),
        (2, 10, step(), -3),
    ];
    for (c, iters, dt, a) in bad_params {
        assert!(!validate_inputs(&good, c, iters, dt, a));
        // an invalid input is reported before a zero restart count
        let r = run_dsb_for_best_result(&good, c, 0, iters, dt, a, alpha_init(), alpha_scale(), &mut rng);
        assert_eq!(r.err(), Some(DsbError::InvalidInput));
    }
    assert!(validate_inputs(&good, 2, 10, step(), 1));
}

#[test]
fn ragged_rows_make_no_matrix() {
    assert!(Matrix::from_rows(&vec![vec![0, 1], vec![0]], 2).is_none());
    let m = Matrix::from_rows(&vec![vec![3, 4], vec![5, 6]], 2).unwrap();
    assert_eq!(m.to_rows(), vec![vec![3, 4], vec![5, 6]]);
}

#[test]
fn annealing_decays_count() {
    let mut a = Annealing::new(alpha_init(), alpha_scale());
    a.decay();
    a.decay();
    assert_eq!(a.decays, 2);
    assert_eq!(a.init, alpha_init());
}
