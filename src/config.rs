//! Hyperparameters of a search and the checks made on them before it runs.

use crate::energy::{is_binary, MAX_COLORS, MAX_PENALTY, MAX_VERTICES};
use crate::grid::{has_shape, Matrix};
use vstd::prelude::*;

verus! {

/// Largest time-step numerator the integer arithmetic is sized for.
pub const MAX_STEP: i64 = 1024;

/// Largest iteration budget the integer arithmetic is sized for.
pub const MAX_ITER: usize = 16777216;

/// The rational number `num / den`, written with a positive denominator: a
/// ratio whose denominator is zero or negative is malformed, and a search
/// refuses it as a time step.
#[derive(Clone, Copy, Debug, PartialEq, Eq)]
pub struct Ratio {
    pub num: i64,
    pub den: i64,
}

impl Ratio {
    /// The ratio is well formed (positive denominator) and a positive number.
    pub open spec fn is_positive(self) -> bool {
        self.num > 0 && self.den > 0
    }
}

/// Why a search was refused.
#[derive(Clone, Copy, Debug, PartialEq, Eq)]
pub enum DsbError {
    /// The graph or a hyperparameter is malformed.
    InvalidInput,
    /// No restart was asked for, so there is no trial to return.
    ConfigurationError,
}

/// `adj` is a square 0/1 matrix, symmetric, with a zero diagonal.
pub open spec fn is_graph(adj: Seq<Seq<i64>>) -> bool {
    &&& has_shape(adj, adj.len() as int, adj.len() as int)
    &&& is_binary(adj)
    &&& forall|u: int, v: int|
        0 <= u < adj.len() && 0 <= v < adj.len() ==> #[trigger] adj[u][v] == adj[v][u]
    &&& forall|u: int| 0 <= u < adj.len() ==> #[trigger] adj[u][u] == 0
}

/// The sizes that the integer arithmetic of a search is made for.
pub open spec fn within_limits(
    adj: Seq<Seq<i64>>,
    num_colors: usize,
    max_iter: usize,
    dt: Ratio,
    a: i64,
) -> bool {
    &&& adj.len() <= MAX_VERTICES
    &&& num_colors <= MAX_COLORS
    &&& max_iter <= MAX_ITER
    &&& dt.num <= MAX_STEP
    &&& a <= MAX_PENALTY
}

/// The graph and hyperparameters a search accepts.
pub open spec fn valid_inputs(
    adj: Seq<Seq<i64>>,
    num_colors: usize,
    max_iter: usize,
    dt: Ratio,
    a: i64,
) -> bool {
    &&& is_graph(adj)
    &&& num_colors > 0
    &&& max_iter > 0
    &&& dt.is_positive()
    &&& a > 0
}

/// Entry `(u, v)` of `adj` is 0 or 1, equals entry `(v, u)`, and is 0 on the
/// diagonal.
pub open spec fn entry_ok(adj: Seq<Seq<i64>>, u: int, v: int) -> bool {
    &&& (adj[u][v] == 0 || adj[u][v] == 1)
    &&& adj[u][v] == adj[v][u]
    &&& (u == v ==> adj[u][v] == 0)
}

/// Whether `adj_matrix` is a square 0/1 matrix, symmetric, with a zero
/// diagonal.
pub fn check_graph(adj_matrix: &Matrix) -> (b: bool)
    ensures
        b == is_graph(adj_matrix@),
{
    let ghost adj = adj_matrix@;
    let n = adj_matrix.nrows();
    if n == 0 {
        return true;
    }
    let c = adj_matrix.ncols();
    if c != n {
        assert(adj[0].len() == c);
        return false;
    }
    let mut u: usize = 0;
    while u < n
        invariant
            u <= n,
            n == adj.len(),
            adj == adj_matrix@,
            has_shape(adj, n as int, n as int),
            forall|uu: int, vv: int| 0 <= uu < u && 0 <= vv < n ==> #[trigger] entry_ok(adj, uu, vv),
        decreases n - u,
    {
        let mut v: usize = 0;
        while v < n
            invariant
                v <= n,
                u < n,
                n == adj.len(),
                adj == adj_matrix@,
                has_shape(adj, n as int, n as int),
                forall|uu: int, vv: int|
                    0 <= uu < u && 0 <= vv < n ==> #[trigger] entry_ok(adj, uu, vv),
                forall|vv: int| 0 <= vv < v ==> #[trigger] entry_ok(adj, u as int, vv),
            decreases n - v,
        {
            let x = adj_matrix.at(u, v);
            let y = adj_matrix.at(v, u);
            if !(x == 0 || x == 1) || x != y || (u == v && x != 0) {
                assert(!entry_ok(adj, u as int, v as int));
                return false;
            }
            v = v + 1;
        }
        u = u + 1;
    }
    assert forall|i: int, j: int| 0 <= i < n && 0 <= j < adj[i].len() implies #[trigger] adj[i][j]
        == 0 || adj[i][j] == 1 by {
        assert(entry_ok(adj, i, j));
    }
    assert forall|i: int, j: int| 0 <= i < n && 0 <= j < n implies #[trigger] adj[i][j]
        == adj[j][i] by {
        assert(entry_ok(adj, i, j));
    }
    assert forall|i: int| 0 <= i < n implies #[trigger] adj[i][i] == 0 by {
        assert(entry_ok(adj, i, i));
    }
    true
}

/// Whether the graph and hyperparameters are ones a search accepts.
pub fn validate_inputs(
    adj_matrix: &Matrix,
    num_colors: usize,
    max_iter: usize,
    dt: Ratio,
    a: i64,
) -> (b: bool)
    ensures
        b == valid_inputs(adj_matrix@, num_colors, max_iter, dt, a),
{
    check_graph(adj_matrix) && num_colors > 0 && max_iter > 0 && dt.num > 0 && dt.den > 0 && a > 0
}

} // verus!
