//! The discrete simulated bifurcation loop: threshold the spins, score the
//! coloring, integrate the local field into the momentum, and set each spin
//! to the sign of its momentum.

use crate::config::{Ratio, MAX_ITER, MAX_STEP};
use crate::energy::{
    energy_of, graph_coloring_energy, is_binary, lemma_energy_bounds, scoring_inputs, width,
    MAX_COLORS, MAX_PENALTY, MAX_VERTICES,
};
use crate::field::{compute_local_field, field_at, field_bound, lemma_field_bound};
use crate::grid::{has_shape, is_rect, Matrix};
use crate::spins::random_spins;
use rand::rngs::StdRng;
use vstd::prelude::*;

verus! {

/// The coloring that spins `q` stand for: 1 where a spin is positive, else 0.
pub open spec fn threshold(q: Seq<Seq<i64>>) -> Seq<Seq<i64>> {
    Seq::new(
        q.len(),
        |i: int| Seq::new(q[i].len(), |j: int| if q[i][j] > 0 { 1i64 } else { 0i64 }),
    )
}

/// An `n` by `c` matrix of zeros.
pub open spec fn zero_grid(n: int, c: int) -> Seq<Seq<i64>> {
    Seq::new(n as nat, |i: int| Seq::new(c as nat, |j: int| 0i64))
}

/// Momentum `p` after one step: each entry loses `step` times the field of
/// coloring `col`.
pub open spec fn next_momentum(
    adj: Seq<Seq<i64>>,
    col: Seq<Seq<i64>>,
    p: Seq<Seq<i64>>,
    a: int,
    step: int,
) -> Seq<Seq<i64>> {
    Seq::new(
        p.len(),
        |i: int|
            Seq::new(
                p[i].len(),
                |j: int| (p[i][j] - step * field_at(adj, col, a, i, j)) as i64,
            ),
    )
}

/// Spins `q` after one step: each takes the sign of its momentum in `p`, and
/// keeps its value where the momentum is zero.
pub open spec fn next_spins(q: Seq<Seq<i64>>, p: Seq<Seq<i64>>) -> Seq<Seq<i64>> {
    Seq::new(
        q.len(),
        |i: int|
            Seq::new(
                q[i].len(),
                |j: int|
                    if p[i][j] > 0 {
                        1i64
                    } else if p[i][j] < 0 {
                        -1i64
                    } else {
                        q[i][j]
                    },
            ),
    )
}

/// At most `fuel` iterations from spins `q` and momentum `p`: the spins
/// reached and the energy seen at each iteration. An iteration that sees
/// energy 0 still moves the spins, and is the last.
pub open spec fn run(
    adj: Seq<Seq<i64>>,
    q: Seq<Seq<i64>>,
    p: Seq<Seq<i64>>,
    a: int,
    step: int,
    fuel: nat,
) -> (Seq<Seq<i64>>, Seq<i64>)
    decreases fuel,
{
    if fuel == 0 {
        (q, Seq::empty())
    } else {
        let col = threshold(q);
        let e = energy_of(adj, col, a);
        let p_next = next_momentum(adj, col, p, a, step);
        let q_next = next_spins(q, p_next);
        if e == 0 {
            (q_next, seq![0i64])
        } else {
            let rest = run(adj, q_next, p_next, a, step, (fuel - 1) as nat);
            (rest.0, seq![e as i64] + rest.1)
        }
    }
}

/// One trial from initial spins `q0` with zero momentum: the final coloring
/// and the energy trace.
pub open spec fn dsb(
    adj: Seq<Seq<i64>>,
    q0: Seq<Seq<i64>>,
    a: int,
    step: int,
    max_iter: nat,
) -> (Seq<Seq<i64>>, Seq<i64>) {
    let r = run(adj, q0, zero_grid(q0.len() as int, width(q0)), a, step, max_iter);
    (threshold(r.0), r.1)
}

/// `q` is an `n` by `c` matrix of spins, each +1 or -1.
pub open spec fn is_spins(q: Seq<Seq<i64>>, n: int, c: int) -> bool {
    &&& has_shape(q, n, c)
    &&& forall|i: int, j: int| 0 <= i < n && 0 <= j < c ==> #[trigger] q[i][j] == 1 || q[i][j] == -1
}

/// What a trial accepts: a 0/1 square graph, an `n` by `c` spin matrix (of
/// any values), and hyperparameters within the sizes of the arithmetic.
pub open spec fn trial_inputs(
    adj: Seq<Seq<i64>>,
    q: Seq<Seq<i64>>,
    max_iter: usize,
    dt: Ratio,
    a: i64,
) -> bool {
    &&& has_shape(adj, adj.len() as int, adj.len() as int)
    &&& is_binary(adj)
    &&& adj.len() <= MAX_VERTICES
    &&& has_shape(q, adj.len() as int, width(q))
    &&& width(q) <= MAX_COLORS
    &&& max_iter <= MAX_ITER
    &&& dt.is_positive()
    &&& dt.num <= MAX_STEP
    &&& 0 < a <= MAX_PENALTY
}

/// The bifurcation parameter: `init` times `scale` to the power `decays`.
/// It is tracked through a trial and takes no part in the update.
#[derive(Clone, Copy, Debug, PartialEq, Eq)]
pub struct Annealing {
    pub init: Ratio,
    pub scale: Ratio,
    pub decays: u64,
}

impl Annealing {
    /// The parameter at its initial value.
    pub fn new(init: Ratio, scale: Ratio) -> (r: Annealing)
        ensures
            r.init == init,
            r.scale == scale,
            r.decays == 0,
    {
        Annealing { init, scale, decays: 0 }
    }

    /// Multiplies the parameter by its scale once more.
    pub fn decay(&mut self)
        requires
            old(self).decays < u64::MAX,
        ensures
            final(self).init == old(self).init,
            final(self).scale == old(self).scale,
            final(self).decays == old(self).decays + 1,
    {
        self.decays = self.decays + 1;
    }
}

/// The coloring that spins `q_matrix` stand for: 1 where a spin is positive,
/// 0 where it is zero or negative.
pub fn q_to_coloring(q_matrix: &Matrix) -> (r: Matrix)
    requires
        q_matrix@.len() <= MAX_VERTICES,
        is_rect(q_matrix@, width(q_matrix@)),
        width(q_matrix@) <= MAX_COLORS,
    ensures
        r@ == threshold(q_matrix@),
        forall|i: int, j: int|
            0 <= i < q_matrix@.len() && 0 <= j < q_matrix@[i].len() ==> (#[trigger] r@[i][j] == 1
                <==> q_matrix@[i][j] > 0),
{
    let ghost q = q_matrix@;
    let n = q_matrix.nrows();
    if n == 0 {
        let r = Matrix::zeros(0, 0);
        assert(r@ =~~= threshold(q));
        return r;
    }
    let c = q_matrix.ncols();
    assert(q[0].len() == c);
    assert(n * c <= 4096 * 4096) by (nonlinear_arith)
        requires
            n <= 4096,
            c <= 4096,
    ;
    let mut r = Matrix::zeros(n, c);
    let mut i: usize = 0;
    while i < n
        invariant
            i <= n,
            n == q.len(),
            q == q_matrix@,
            is_rect(q, c as int),
            has_shape(r@, n as int, c as int),
            forall|ii: int, jj: int|
                0 <= ii < n && 0 <= jj < c ==> #[trigger] r@[ii][jj] == if ii < i {
                    threshold(q)[ii][jj]
                } else {
                    0
                },
        decreases n - i,
    {
        let mut j: usize = 0;
        while j < c
            invariant
                j <= c,
                i < n,
                n == q.len(),
                q == q_matrix@,
                is_rect(q, c as int),
                has_shape(r@, n as int, c as int),
                forall|ii: int, jj: int|
                    0 <= ii < n && 0 <= jj < c ==> #[trigger] r@[ii][jj] == if ii < i || (ii == i
                        && jj < j) {
                        threshold(q)[ii][jj]
                    } else {
                        0
                    },
            decreases c - j,
        {
            let ghost before = r@;
            if q_matrix.at(i, j) > 0 {
                r.set_at(i, j, 1);
            }
            assert forall|ii: int| 0 <= ii < n implies #[trigger] r@[ii].len() == c by {
                assert(before[ii].len() == c);
            }
            j = j + 1;
        }
        i = i + 1;
    }
    assert(r@ =~~= threshold(q));
    r
}

/// `p` with `step` times `h` taken from each entry.
pub open spec fn shifted(p: Seq<Seq<i64>>, h: Seq<Seq<i64>>, step: int) -> Seq<Seq<i64>> {
    Seq::new(
        p.len(),
        |i: int| Seq::new(p[i].len(), |j: int| (p[i][j] - step * h[i][j]) as i64),
    )
}

/// Moves momentum `p` against field `h` by `step`, then sets each spin of `q`
/// to the sign of its momentum, leaving it where the momentum is zero.
fn advance(p: &mut Matrix, q: &mut Matrix, h: &Matrix, n: usize, c: usize, step: i64)
    requires
        has_shape(old(p)@, n as int, c as int),
        has_shape(old(q)@, n as int, c as int),
        has_shape(h@, n as int, c as int),
        0 < step <= MAX_STEP,
        forall|i: int, j: int|
            0 <= i < n && 0 <= j < c ==> -0x100_0000_0000 <= #[trigger] h@[i][j] <= 0x100_0000_0000,
        forall|i: int, j: int|
            0 <= i < n && 0 <= j < c ==> i64::MIN <= #[trigger] old(p)@[i][j] - step * h@[i][j]
                <= i64::MAX,
    ensures
        final(p)@ == shifted(old(p)@, h@, step as int),
        final(q)@ == next_spins(old(q)@, final(p)@),
{
    let ghost p0 = p@;
    let ghost q0 = q@;
    let ghost p_new = shifted(p0, h@, step as int);
    let ghost q_new = next_spins(q0, p_new);
    let mut i: usize = 0;
    while i < n
        invariant
            i <= n,
            has_shape(p0, n as int, c as int),
            has_shape(q0, n as int, c as int),
            has_shape(h@, n as int, c as int),
            has_shape(p@, n as int, c as int),
            has_shape(q@, n as int, c as int),
            0 < step <= MAX_STEP,
            p_new == shifted(p0, h@, step as int),
            q_new == next_spins(q0, p_new),
            forall|i: int, j: int|
                0 <= i < n && 0 <= j < c ==> -0x100_0000_0000 <= #[trigger] h@[i][j] <= 0x100_0000_0000,
            forall|i: int, j: int|
                0 <= i < n && 0 <= j < c ==> i64::MIN <= #[trigger] p0[i][j] - step * h@[i][j]
                    <= i64::MAX,
            forall|ii: int, jj: int|
                0 <= ii < n && 0 <= jj < c ==> #[trigger] p@[ii][jj] == if ii < i {
                    p_new[ii][jj]
                } else {
                    p0[ii][jj]
                },
            forall|ii: int, jj: int|
                0 <= ii < n && 0 <= jj < c ==> #[trigger] q@[ii][jj] == if ii < i {
                    q_new[ii][jj]
                } else {
                    q0[ii][jj]
                },
        decreases n - i,
    {
        let mut j: usize = 0;
        while j < c
            invariant
                j <= c,
                i < n,
                has_shape(p0, n as int, c as int),
                has_shape(q0, n as int, c as int),
                has_shape(h@, n as int, c as int),
                has_shape(p@, n as int, c as int),
                has_shape(q@, n as int, c as int),
                0 < step <= MAX_STEP,
                p_new == shifted(p0, h@, step as int),
                q_new == next_spins(q0, p_new),
                forall|i: int, j: int|
                    0 <= i < n && 0 <= j < c ==> -0x100_0000_0000 <= #[trigger] h@[i][j]
                        <= 0x100_0000_0000,
                forall|i: int, j: int|
                    0 <= i < n && 0 <= j < c ==> i64::MIN <= #[trigger] p0[i][j] - step * h@[i][j]
                        <= i64::MAX,
                forall|ii: int, jj: int|
                    0 <= ii < n && 0 <= jj < c ==> #[trigger] p@[ii][jj] == if ii < i || (ii == i
                        && jj < j) {
                        p_new[ii][jj]
                    } else {
                        p0[ii][jj]
                    },
                forall|ii: int, jj: int|
                    0 <= ii < n && 0 <= jj < c ==> #[trigger] q@[ii][jj] == if ii < i || (ii == i
                        && jj < j) {
                        q_new[ii][jj]
                    } else {
                        q0[ii][jj]
                    },
            decreases c - j,
        {
            let hv = h.at(i, j);
            let pv = p.at(i, j);
            assert(-0x40_0000_0000_0000 <= step * hv <= 0x40_0000_0000_0000) by (nonlinear_arith)
                requires
                    0 < step <= 1024,
                    -0x100_0000_0000 <= hv <= 0x100_0000_0000,
            ;
            let np: i64 = pv - step * hv;
            assert(np == p_new[i as int][j as int]);
            let ghost pb = p@;
            let ghost qb = q@;
            p.set_at(i, j, np);
            if np > 0 {
                q.set_at(i, j, 1);
            } else if np < 0 {
                q.set_at(i, j, -1);
            }
            assert forall|ii: int| 0 <= ii < n implies #[trigger] p@[ii].len() == c && q@[ii].len()
                == c by {
                assert(pb[ii].len() == c);
                assert(qb[ii].len() == c);
            }
            j = j + 1;
        }
        i = i + 1;
    }
    assert(p@ =~~= p_new);
    assert(q@ =~~= q_new);
}

/// One trial of discrete simulated bifurcation on the graph `adj_matrix`
/// from the initial spins `q` with zero momentum. Each iteration records the
/// energy of the coloring the spins stand for, moves the momentum against
/// the local field by the time step `dt`, sets each spin to the sign of its
/// momentum (a zero momentum leaves the spin as it is), and decays the
/// bifurcation parameter. The trial stops after `max_iter` iterations, or
/// after the first iteration that saw energy 0. Returns the coloring of the
/// final spins and the energy trace.
///
/// The momentum is kept multiplied by `dt.den`; as `dt` is positive, every
/// entry has the sign it would have unscaled.
pub fn discrete_simulated_bifurcation_from(
    adj_matrix: &Matrix,
    q: Matrix,
    max_iter: usize,
    dt: Ratio,
    a: i64,
    alpha_init: Ratio,
    alpha_scale: Ratio,
) -> (r: (Matrix, Vec<i64>))
    requires
        trial_inputs(adj_matrix@, q@, max_iter, dt, a),
    ensures
        (r.0@, r.1@) == dsb(adj_matrix@, q@, a as int, dt.num as int, max_iter as nat),
        r.1@.len() <= max_iter,
{
    let ghost adj = adj_matrix@;
    let ghost q0 = q@;
    let step = dt.num;
    let n = q.nrows();
    let c = if n == 0 {
        0
    } else {
        q.ncols()
    };
    assert(c == width(q0)) by {
        if n > 0 {
            assert(q0[0].len() == c);
        }
    }
    assert(n * c <= 4096 * 4096) by (nonlinear_arith)
        requires
            n <= 4096,
            c <= 4096,
    ;
    let ghost fb = field_bound(n as int, c as int, a as int);
    let ghost sf = step * fb;
    assert(0 <= fb <= 1024 * (3 * 4096 + 2)) by (nonlinear_arith)
        requires
            fb == a * (2 * c + 2 + n),
            0 < a <= 1024,
            c <= 4096,
            n <= 4096,
    ;
    assert(0 <= sf <= 0x3_0020_0000) by (nonlinear_arith)
        requires
            sf == step * fb,
            0 < step <= 1024,
            0 <= fb <= 1024 * (3 * 4096 + 2),
    ;
    let mut q = q;
    let mut p = Matrix::zeros(n, c);
    assert(p@ =~~= zero_grid(n as int, c as int));
    let ghost full = run(adj, q0, p@, a as int, step as int, max_iter as nat);
    let mut alpha = Annealing::new(alpha_init, alpha_scale);
    let mut trace: Vec<i64> = Vec::new();
    let mut k: usize = 0;
    let mut done = false;
    while k < max_iter && !done
        invariant
            k <= max_iter,
            max_iter <= MAX_ITER,
            trace@.len() == k,
            alpha.decays == k,
            adj == adj_matrix@,
            trial_inputs(adj, q0, max_iter, dt, a),
            step == dt.num,
            n == adj.len(),
            c == width(q0),
            has_shape(q@, n as int, c as int),
            has_shape(p@, n as int, c as int),
            0 <= sf <= 0x3_0020_0000,
            sf == step * fb,
            fb == field_bound(n as int, c as int, a as int),
            forall|i: int, j: int|
                0 <= i < n && 0 <= j < c ==> -(k * sf) <= #[trigger] p@[i][j] <= k * sf,
            done ==> full.0 == q@ && full.1 == trace@,
            !done ==> full.0 == run(adj, q@, p@, a as int, step as int, (max_iter - k) as nat).0
                && full.1 == trace@ + run(
                adj,
                q@,
                p@,
                a as int,
                step as int,
                (max_iter - k) as nat,
            ).1,
        decreases max_iter - k,
    {
        let ghost qb = q@;
        let ghost pb = p@;
        let coloring = q_to_coloring(&q);
        let ghost col = coloring@;
        assert(width(col) == c) by {
            if n > 0 {
                assert(qb[0].len() == c);
            }
        }
        assert(scoring_inputs(adj, col));
        let e = graph_coloring_energy(adj_matrix, &coloring, a);
        trace.push(e);
        let h = compute_local_field(adj_matrix, &coloring, a);
        assert(k * sf + sf == (k + 1) * sf && (k + 1) * sf <= 0x300_2000_0000_0000) by (nonlinear_arith)
            requires
                0 <= k < 0x100_0000,
                0 <= sf <= 0x3_0020_0000,
        ;
        assert forall|i: int, j: int| 0 <= i < n && 0 <= j < c implies -0x100_0000_0000
            <= #[trigger] h@[i][j] <= 0x100_0000_0000 && -sf <= step * h@[i][j] <= sf && i64::MIN
            <= p@[i][j] - step * h@[i][j] <= i64::MAX by {
            lemma_field_bound(adj, col, a as int, i, j);
            let hv = h@[i][j] as int;
            assert(-sf <= step * hv <= sf) by (nonlinear_arith)
                requires
                    sf == step * fb,
                    0 < step,
                    -fb <= hv <= fb,
            ;
        }
        advance(&mut p, &mut q, &h, n, c, step);
        assert(p@ =~~= next_momentum(adj, col, pb, a as int, step as int));
        alpha.decay();
        proof {
            if !done {
                let fuel = (max_iter - k) as nat;
                let rest = run(adj, q@, p@, a as int, step as int, (fuel - 1) as nat);
                if e == 0 {
                    assert(trace@ =~= (trace@.drop_last() + seq![0i64]));
                } else {
                    assert(trace@.drop_last() + (seq![e] + rest.1) =~= trace@ + rest.1);
                }
            }
        }
        k = k + 1;
        if e == 0 {
            done = true;
        }
    }
    proof {
        if !done {
            assert(trace@ + Seq::<i64>::empty() =~= trace@);
        }
    }
    let coloring = q_to_coloring(&q);
    (coloring, trace)
}

/// One trial of discrete simulated bifurcation on the graph `adj_matrix`
/// with `num_colors` colors, from spins drawn at random from `rng` and zero
/// momentum; see `discrete_simulated_bifurcation_from`.
pub fn discrete_simulated_bifurcation(
    adj_matrix: &Matrix,
    num_colors: usize,
    max_iter: usize,
    dt: Ratio,
    a: i64,
    alpha_init: Ratio,
    alpha_scale: Ratio,
    rng: &mut StdRng,
) -> (r: (Matrix, Vec<i64>))
    requires
        has_shape(adj_matrix@, adj_matrix@.len() as int, adj_matrix@.len() as int),
        is_binary(adj_matrix@),
        adj_matrix@.len() <= MAX_VERTICES,
        0 < num_colors <= MAX_COLORS,
        max_iter <= MAX_ITER,
        dt.is_positive(),
        dt.num <= MAX_STEP,
        0 < a <= MAX_PENALTY,
    ensures
        exists|q0: Seq<Seq<i64>>|
            is_spins(q0, adj_matrix@.len() as int, num_colors as int) && (r.0@, r.1@) == dsb(
                adj_matrix@,
                q0,
                a as int,
                dt.num as int,
                max_iter as nat,
            ),
        r.1@.len() <= max_iter,
{
    let n = adj_matrix.nrows();
    let q = random_spins(rng, n, num_colors);
    let ghost q0 = q@;
    assert(has_shape(q0, n as int, width(q0))) by {
        if n > 0 {
            assert(q0[0].len() == num_colors);
        }
    }
    discrete_simulated_bifurcation_from(adj_matrix, q, max_iter, dt, a, alpha_init, alpha_scale)
}

/// `q` and `p` are spins and momentum for the graph `adj`, of one shape.
pub open spec fn state_ok(adj: Seq<Seq<i64>>, q: Seq<Seq<i64>>, p: Seq<Seq<i64>>) -> bool {
    &&& has_shape(adj, adj.len() as int, adj.len() as int)
    &&& is_binary(adj)
    &&& adj.len() <= MAX_VERTICES
    &&& has_shape(q, adj.len() as int, width(q))
    &&& width(q) <= MAX_COLORS
    &&& has_shape(p, adj.len() as int, width(q))
}

/// The energy trace of a trial never outgrows its budget, holds no negative
/// entry, and holds 0 at most once: as its last entry, where the trial ended
/// before its budget ran out.
pub proof fn lemma_run_trace(
    adj: Seq<Seq<i64>>,
    q: Seq<Seq<i64>>,
    p: Seq<Seq<i64>>,
    a: int,
    step: int,
    fuel: nat,
)
    requires
        state_ok(adj, q, p),
        0 < a <= MAX_PENALTY,
    ensures
        run(adj, q, p, a, step, fuel).1.len() <= fuel,
        fuel > 0 ==> run(adj, q, p, a, step, fuel).1.len() > 0,
        forall|k: int|
            0 <= k < run(adj, q, p, a, step, fuel).1.len() ==> #[trigger] run(
                adj,
                q,
                p,
                a,
                step,
                fuel,
            ).1[k] >= 0,
        forall|k: int|
            0 <= k < run(adj, q, p, a, step, fuel).1.len() - 1 ==> #[trigger] run(
                adj,
                q,
                p,
                a,
                step,
                fuel,
            ).1[k] != 0,
        run(adj, q, p, a, step, fuel).1.len() < fuel ==> run(adj, q, p, a, step, fuel).1.last()
            == 0,
    decreases fuel,
{
    if fuel > 0 {
        let col = threshold(q);
        let e = energy_of(adj, col, a);
        let p_next = next_momentum(adj, col, p, a, step);
        let q_next = next_spins(q, p_next);
        assert(width(col) == width(q) && width(q_next) == width(q)) by {
            if adj.len() > 0 {
                assert(q[0].len() == width(q));
            }
        }
        assert(scoring_inputs(adj, col));
        lemma_energy_bounds(adj, col, a);
        if e != 0 {
            assert(state_ok(adj, q_next, p_next));
            lemma_run_trace(adj, q_next, p_next, a, step, (fuel - 1) as nat);
            let rest = run(adj, q_next, p_next, a, step, (fuel - 1) as nat);
            let t = seq![e as i64] + rest.1;
            assert forall|k: int| 0 <= k < t.len() implies #[trigger] t[k] >= 0 by {
                if k > 0 {
                    assert(t[k] == rest.1[k - 1]);
                }
            }
            assert forall|k: int| 0 <= k < t.len() - 1 implies #[trigger] t[k] != 0 by {
                if k > 0 {
                    assert(t[k] == rest.1[k - 1]);
                }
            }
        }
    }
}

/// The trace of a trial from well-shaped spins is never longer than
/// `max_iter`, is not empty where `max_iter` is positive, holds only
/// non-negative energies, and where it is shorter than `max_iter` its last
/// entry, and only that one, is 0.
pub proof fn lemma_dsb_trace(adj: Seq<Seq<i64>>, q0: Seq<Seq<i64>>, a: int, step: int, max_iter: nat)
    requires
        state_ok(adj, q0, zero_grid(q0.len() as int, width(q0))),
        0 < a <= MAX_PENALTY,
    ensures
        dsb(adj, q0, a, step, max_iter).1.len() <= max_iter,
        max_iter > 0 ==> dsb(adj, q0, a, step, max_iter).1.len() > 0,
        forall|k: int|
            0 <= k < dsb(adj, q0, a, step, max_iter).1.len() ==> #[trigger] dsb(
                adj,
                q0,
                a,
                step,
                max_iter,
            ).1[k] >= 0,
        forall|k: int|
            0 <= k < dsb(adj, q0, a, step, max_iter).1.len() - 1 ==> #[trigger] dsb(
                adj,
                q0,
                a,
                step,
                max_iter,
            ).1[k] != 0,
        dsb(adj, q0, a, step, max_iter).1.len() < max_iter ==> dsb(
            adj,
            q0,
            a,
            step,
            max_iter,
        ).1.last() == 0,
{
    lemma_run_trace(adj, q0, zero_grid(q0.len() as int, width(q0)), a, step, max_iter);
}

/// A step keeps every spin at +1 or -1.
pub proof fn lemma_next_spins_are_signs(q: Seq<Seq<i64>>, p: Seq<Seq<i64>>, n: int, c: int)
    requires
        is_spins(q, n, c),
    ensures
        is_spins(next_spins(q, p), n, c),
{
}

} // verus!
