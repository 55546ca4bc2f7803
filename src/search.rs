//! Restart search: many independent trials, of which the one with the lowest
//! final energy is kept, the earliest one among equals.

use crate::config::{valid_inputs, validate_inputs, within_limits, DsbError, Ratio};
use crate::grid::Matrix;
use crate::integrator::{
    discrete_simulated_bifurcation_from, dsb, is_spins, lemma_dsb_trace, trial_inputs,
};
use crate::spins::random_spins;
use rand::rngs::StdRng;
use vstd::prelude::*;

verus! {

/// The entries of each matrix in `v`.
pub open spec fn grids(v: Seq<Matrix>) -> Seq<Seq<Seq<i64>>> {
    Seq::new(v.len(), |t: int| v[t]@)
}

/// The final energy of each trial, one trial per initial spin matrix.
pub open spec fn finals_of(
    adj: Seq<Seq<i64>>,
    inits: Seq<Seq<Seq<i64>>>,
    a: int,
    step: int,
    max_iter: nat,
) -> Seq<i64> {
    Seq::new(inits.len(), |t: int| dsb(adj, inits[t], a, step, max_iter).1.last())
}

/// The index of the first lowest value among the first `k` of `finals`.
pub open spec fn first_best(finals: Seq<i64>, k: int) -> int
    decreases k,
{
    if k <= 1 {
        0
    } else {
        let b = first_best(finals, k - 1);
        if finals[k - 1] < finals[b] {
            k - 1
        } else {
            b
        }
    }
}

/// The trial kept by a restart search from initial spins `inits`.
pub open spec fn best_of(
    adj: Seq<Seq<i64>>,
    inits: Seq<Seq<Seq<i64>>>,
    a: int,
    step: int,
    max_iter: nat,
) -> (Seq<Seq<i64>>, Seq<i64>) {
    dsb(adj, inits[first_best(finals_of(adj, inits, a, step, max_iter), inits.len() as int)], a, step, max_iter)
}

/// `first_best` picks a lowest value, and no earlier value is as low.
pub proof fn lemma_first_best(finals: Seq<i64>, k: int)
    requires
        1 <= k <= finals.len(),
    ensures
        0 <= first_best(finals, k) < k,
        forall|j: int| 0 <= j < k ==> finals[first_best(finals, k)] <= #[trigger] finals[j],
        forall|j: int| 0 <= j < first_best(finals, k) ==> #[trigger] finals[j] > finals[first_best(finals, k)],
    decreases k,
{
    if k > 1 {
        lemma_first_best(finals, k - 1);
    }
}

/// A restart search keeps the trial with the lowest final energy over all
/// trials, and of several with that energy the one that ran first.
pub proof fn lemma_best_of_is_first_lowest(
    adj: Seq<Seq<i64>>,
    inits: Seq<Seq<Seq<i64>>>,
    a: int,
    step: int,
    max_iter: nat,
)
    requires
        inits.len() >= 1,
    ensures
        ({
            let finals = finals_of(adj, inits, a, step, max_iter);
            let b = first_best(finals, inits.len() as int);
            &&& 0 <= b < inits.len()
            &&& best_of(adj, inits, a, step, max_iter) == dsb(adj, inits[b], a, step, max_iter)
            &&& forall|j: int|
                0 <= j < inits.len() ==> best_of(adj, inits, a, step, max_iter).1.last()
                    <= #[trigger] dsb(adj, inits[j], a, step, max_iter).1.last()
            &&& forall|j: int|
                0 <= j < b ==> #[trigger] dsb(adj, inits[j], a, step, max_iter).1.last() > best_of(
                    adj,
                    inits,
                    a,
                    step,
                    max_iter,
                ).1.last()
        }),
{
    let finals = finals_of(adj, inits, a, step, max_iter);
    lemma_first_best(finals, inits.len() as int);
    let b = first_best(finals, inits.len() as int);
    assert forall|j: int| 0 <= j < inits.len() implies best_of(adj, inits, a, step, max_iter).1.last()
        <= #[trigger] dsb(adj, inits[j], a, step, max_iter).1.last() by {
        assert(finals[j] == dsb(adj, inits[j], a, step, max_iter).1.last());
    }
    assert forall|j: int| 0 <= j < b implies #[trigger] dsb(adj, inits[j], a, step, max_iter).1.last()
        > best_of(adj, inits, a, step, max_iter).1.last() by {
        assert(finals[j] == dsb(adj, inits[j], a, step, max_iter).1.last());
    }
}

/// Runs one trial from each of the initial spin matrices `inits` and keeps
/// the one whose final energy is lowest; a later trial replaces the kept one
/// only with a strictly lower final energy.
pub fn best_result_from_spins(
    adj_matrix: &Matrix,
    inits: &Vec<Matrix>,
    max_iter: usize,
    dt: Ratio,
    a: i64,
    alpha_init: Ratio,
    alpha_scale: Ratio,
) -> (r: (Matrix, Vec<i64>))
    requires
        inits.len() >= 1,
        max_iter >= 1,
        forall|t: int| 0 <= t < inits.len() ==> trial_inputs(adj_matrix@, #[trigger] inits@[t]@, max_iter, dt, a),
    ensures
        (r.0@, r.1@) == best_of(adj_matrix@, grids(inits@), a as int, dt.num as int, max_iter as nat),
{
    let ghost adj = adj_matrix@;
    let ghost gs = grids(inits@);
    let ghost finals = finals_of(adj, gs, a as int, dt.num as int, max_iter as nat);
    assert(trial_inputs(adj, inits@[0]@, max_iter, dt, a));
    let q = inits[0].copy();
    let (mut best_col, mut best_trace) = discrete_simulated_bifurcation_from(
        adj_matrix, q, max_iter, dt, a, alpha_init, alpha_scale);
    proof {
        assert(gs[0] == inits@[0]@);
        lemma_dsb_trace(adj, gs[0], a as int, dt.num as int, max_iter as nat);
    }
    let mut best_final = best_trace[best_trace.len() - 1];
    let mut t: usize = 1;
    while t < inits.len()
        invariant
            1 <= t <= inits.len(),
            max_iter >= 1,
            adj == adj_matrix@,
            gs == grids(inits@),
            finals == finals_of(adj, gs, a as int, dt.num as int, max_iter as nat),
            forall|t: int| 0 <= t < inits.len() ==> trial_inputs(adj, #[trigger] inits@[t]@, max_iter, dt, a),
            (best_col@, best_trace@) == dsb(adj, gs[first_best(finals, t as int)], a as int, dt.num as int, max_iter as nat),
            best_final == finals[first_best(finals, t as int)],
        decreases inits.len() - t,
    {
        assert(trial_inputs(adj, inits@[t as int]@, max_iter, dt, a));
        let q = inits[t].copy();
        assert(gs[t as int] == inits@[t as int]@);
        let (col, trace) = discrete_simulated_bifurcation_from(
            adj_matrix, q, max_iter, dt, a, alpha_init, alpha_scale);
        proof {
            lemma_dsb_trace(adj, gs[t as int], a as int, dt.num as int, max_iter as nat);
        }
        let fe = trace[trace.len() - 1];
        if fe < best_final {
            best_col = col;
            best_trace = trace;
            best_final = fe;
        }
        t = t + 1;
    }
    (best_col, best_trace)
}

/// Runs `r` independent trials of discrete simulated bifurcation on the
/// graph `adj_matrix` with `num_colors` colors, each from fresh random spins
/// drawn from `rng`, and returns the coloring and energy trace of the trial
/// with the lowest final energy, the earliest among equals.
///
/// Fails with `InvalidInput` where the graph is not a square symmetric 0/1
/// matrix with a zero diagonal, or `num_colors`, `max_iter`, `dt` or `a` is
/// not positive; else with `ConfigurationError` where `r` is 0.
pub fn run_dsb_for_best_result(
    adj_matrix: &Matrix,
    num_colors: usize,
    r: usize,
    max_iter: usize,
    dt: Ratio,
    a: i64,
    alpha_init: Ratio,
    alpha_scale: Ratio,
    rng: &mut StdRng,
) -> (res: Result<(Matrix, Vec<i64>), DsbError>)
    requires
        within_limits(adj_matrix@, num_colors, max_iter, dt, a),
    ensures
        res is Ok <==> valid_inputs(adj_matrix@, num_colors, max_iter, dt, a) && r > 0,
        res == Err::<(Matrix, Vec<i64>), DsbError>(DsbError::InvalidInput) <==> !valid_inputs(
            adj_matrix@,
            num_colors,
            max_iter,
            dt,
            a,
        ),
        res == Err::<(Matrix, Vec<i64>), DsbError>(DsbError::ConfigurationError) <==> valid_inputs(
            adj_matrix@,
            num_colors,
            max_iter,
            dt,
            a,
        ) && r == 0,
        res matches Ok(v) ==> exists|inits: Seq<Seq<Seq<i64>>>|
            {
                &&& inits.len() == r
                &&& forall|t: int|
                    0 <= t < r ==> is_spins(
                        #[trigger] inits[t],
                        adj_matrix@.len() as int,
                        num_colors as int,
                    )
                &&& (v.0@, v.1@) == best_of(
                    adj_matrix@,
                    inits,
                    a as int,
                    dt.num as int,
                    max_iter as nat,
                )
            },
{
    if !validate_inputs(adj_matrix, num_colors, max_iter, dt, a) {
        return Err(DsbError::InvalidInput);
    }
    if r == 0 {
        return Err(DsbError::ConfigurationError);
    }
    let ghost adj = adj_matrix@;
    let n = adj_matrix.nrows();
    let mut inits: Vec<Matrix> = Vec::new();
    let mut t: usize = 0;
    while t < r
        invariant
            t <= r,
            inits@.len() == t,
            adj == adj_matrix@,
            n == adj.len(),
            within_limits(adj, num_colors, max_iter, dt, a),
            valid_inputs(adj, num_colors, max_iter, dt, a),
            forall|k: int| 0 <= k < t ==> is_spins(#[trigger] inits@[k]@, n as int, num_colors as int),
        decreases r - t,
    {
        let q = random_spins(rng, n, num_colors);
        inits.push(q);
        t = t + 1;
    }
    assert forall|k: int| 0 <= k < inits.len() implies trial_inputs(adj, #[trigger] inits@[k]@, max_iter, dt, a) by {
        let q = inits@[k]@;
        assert(is_spins(q, n as int, num_colors as int));
        if n > 0 {
            assert(q[0].len() == num_colors);
        }
    }
    let best = best_result_from_spins(adj_matrix, &inits, max_iter, dt, a, alpha_init, alpha_scale);
    let ghost gs = grids(inits@);
    assert forall|k: int| 0 <= k < r implies is_spins(#[trigger] gs[k], n as int, num_colors as int) by {
        assert(gs[k] == inits@[k]@);
    }
    Ok(best)
}

} // verus!
