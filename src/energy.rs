//! The penalty ("energy") of a coloring: one term for vertices without
//! exactly one color, one for adjacent vertices that share a color.

use crate::grid::{has_shape, is_rect, Matrix};
use vstd::prelude::*;

verus! {

/// Largest vertex count the integer arithmetic is sized for.
pub const MAX_VERTICES: usize = 4096;

/// Largest color count the integer arithmetic is sized for.
pub const MAX_COLORS: usize = 4096;

/// Largest penalty coefficient the integer arithmetic is sized for.
pub const MAX_PENALTY: i64 = 1024;

/// Every entry of `g` is 0 or 1.
pub open spec fn is_binary(g: Seq<Seq<i64>>) -> bool {
    forall|i: int, j: int|
        0 <= i < g.len() && 0 <= j < g[i].len() ==> #[trigger] g[i][j] == 0 || g[i][j] == 1
}

/// The number of columns of `g`, read off its first row.
pub open spec fn width(g: Seq<Seq<i64>>) -> int {
    if g.len() > 0 {
        g[0].len() as int
    } else {
        0
    }
}

/// `adj` is an `n` by `n` matrix over {0, 1}, `col` an `n` by `c` one, of
/// sizes the arithmetic is made for.
pub open spec fn scoring_inputs(adj: Seq<Seq<i64>>, col: Seq<Seq<i64>>) -> bool {
    &&& has_shape(adj, adj.len() as int, adj.len() as int)
    &&& is_binary(adj)
    &&& adj.len() <= MAX_VERTICES
    &&& has_shape(col, adj.len() as int, width(col))
    &&& width(col) <= MAX_COLORS
    &&& is_binary(col)
}

/// The sum of the first `k` entries of `r`.
pub open spec fn row_sum(r: Seq<i64>, k: int) -> int
    decreases k,
{
    if k <= 0 {
        0
    } else {
        row_sum(r, k - 1) + r[k - 1]
    }
}

/// How many colors vertex `i` holds.
pub open spec fn colors_of(col: Seq<Seq<i64>>, i: int) -> int {
    row_sum(col[i], col[i].len() as int)
}

/// The squared deviation from one color of vertex `i`.
pub open spec fn vertex_penalty(col: Seq<Seq<i64>>, i: int) -> int {
    (1 - colors_of(col, i)) * (1 - colors_of(col, i))
}

/// The vertex term over the first `k` vertices.
pub open spec fn vertex_term(col: Seq<Seq<i64>>, k: int) -> int
    decreases k,
{
    if k <= 0 {
        0
    } else {
        vertex_term(col, k - 1) + vertex_penalty(col, k - 1)
    }
}

/// The number of the first `k` colors that rows `x` and `y` both hold.
pub open spec fn shared(x: Seq<i64>, y: Seq<i64>, k: int) -> int
    decreases k,
{
    if k <= 0 {
        0
    } else {
        shared(x, y, k - 1) + x[k - 1] * y[k - 1]
    }
}

/// The colors that vertex `u` shares with its neighbour `v`, or 0 where
/// `v` is no neighbour.
pub open spec fn pair_penalty(adj: Seq<Seq<i64>>, col: Seq<Seq<i64>>, u: int, v: int) -> int {
    if adj[u][v] == 1 {
        shared(col[u], col[v], col[u].len() as int)
    } else {
        0
    }
}

/// The shared colors of vertex `u` with its neighbours among the first `k`.
pub open spec fn edge_row(adj: Seq<Seq<i64>>, col: Seq<Seq<i64>>, u: int, k: int) -> int
    decreases k,
{
    if k <= 0 {
        0
    } else {
        edge_row(adj, col, u, k - 1) + pair_penalty(adj, col, u, k - 1)
    }
}

/// The edge term over the first `k` vertices, each edge seen from both ends.
pub open spec fn edge_term(adj: Seq<Seq<i64>>, col: Seq<Seq<i64>>, k: int) -> int
    decreases k,
{
    if k <= 0 {
        0
    } else {
        edge_term(adj, col, k - 1) + edge_row(adj, col, k - 1, adj.len() as int)
    }
}

/// The energy of coloring `col` of graph `adj` under penalty `a`.
pub open spec fn energy_of(adj: Seq<Seq<i64>>, col: Seq<Seq<i64>>, a: int) -> int {
    a * (vertex_term(col, col.len() as int) + edge_term(adj, col, adj.len() as int))
}

/// Every vertex holds exactly one color.
pub open spec fn one_hot(col: Seq<Seq<i64>>) -> bool {
    forall|i: int| 0 <= i < col.len() ==> #[trigger] colors_of(col, i) == 1
}

/// No two adjacent vertices hold the same color.
pub open spec fn no_conflict(adj: Seq<Seq<i64>>, col: Seq<Seq<i64>>) -> bool {
    forall|u: int, v: int, k: int|
        0 <= u < adj.len() && 0 <= v < adj.len() && 0 <= k < col[u].len() && adj[u][v] == 1
            ==> !(#[trigger] col[u][k] == 1 && #[trigger] col[v][k] == 1)
}

/// `col` is a proper coloring of `adj` with one color per vertex.
pub open spec fn is_proper(adj: Seq<Seq<i64>>, col: Seq<Seq<i64>>) -> bool {
    one_hot(col) && no_conflict(adj, col)
}

pub(crate) proof fn lemma_row_sum_bounds(r: Seq<i64>, k: int)
    requires
        0 <= k <= r.len(),
        forall|j: int| 0 <= j < r.len() ==> #[trigger] r[j] == 0 || r[j] == 1,
    ensures
        0 <= row_sum(r, k) <= k,
    decreases k,
{
    if k > 0 {
        lemma_row_sum_bounds(r, k - 1);
    }
}

proof fn lemma_shared_bounds(x: Seq<i64>, y: Seq<i64>, k: int)
    requires
        0 <= k <= x.len(),
        k <= y.len(),
        forall|j: int| 0 <= j < x.len() ==> #[trigger] x[j] == 0 || x[j] == 1,
        forall|j: int| 0 <= j < y.len() ==> #[trigger] y[j] == 0 || y[j] == 1,
    ensures
        0 <= shared(x, y, k) <= k,
    decreases k,
{
    if k > 0 {
        lemma_shared_bounds(x, y, k - 1);
        assert(0 <= x[k - 1] * y[k - 1] <= 1) by (nonlinear_arith)
            requires
                x[k - 1] == 0 || x[k - 1] == 1,
                y[k - 1] == 0 || y[k - 1] == 1,
        ;
    }
}

proof fn lemma_vertex_penalty_bound(col: Seq<Seq<i64>>, i: int)
    requires
        0 <= i < col.len(),
        is_binary(col),
    ensures
        0 <= vertex_penalty(col, i) <= (col[i].len() + 1) * (col[i].len() + 1),
{
    lemma_row_sum_bounds(col[i], col[i].len() as int);
    let s = colors_of(col, i);
    let c = col[i].len() as int;
    assert(0 <= (1 - s) * (1 - s) <= (c + 1) * (c + 1)) by (nonlinear_arith)
        requires
            0 <= s <= c,
    ;
}

proof fn lemma_vertex_term_bound(col: Seq<Seq<i64>>, k: int)
    requires
        0 <= k <= col.len(),
        is_binary(col),
        is_rect(col, width(col)),
    ensures
        0 <= vertex_term(col, k) <= k * ((width(col) + 1) * (width(col) + 1)),
    decreases k,
{
    if k > 0 {
        lemma_vertex_term_bound(col, k - 1);
        lemma_vertex_penalty_bound(col, k - 1);
        let w = (width(col) + 1) * (width(col) + 1);
        assert((k - 1) * w + w == k * w) by (nonlinear_arith);
    }
}

proof fn lemma_edge_row_bound(adj: Seq<Seq<i64>>, col: Seq<Seq<i64>>, u: int, k: int)
    requires
        scoring_inputs(adj, col),
        0 <= u < adj.len(),
        0 <= k <= adj.len(),
    ensures
        0 <= edge_row(adj, col, u, k) <= k * width(col),
    decreases k,
{
    if k > 0 {
        lemma_edge_row_bound(adj, col, u, k - 1);
        if adj[u][k - 1] == 1 {
            lemma_shared_bounds(col[u], col[k - 1], col[u].len() as int);
        }
        assert((k - 1) * width(col) + width(col) == k * width(col)) by (nonlinear_arith);
    }
}

proof fn lemma_edge_term_bound(adj: Seq<Seq<i64>>, col: Seq<Seq<i64>>, k: int)
    requires
        scoring_inputs(adj, col),
        0 <= k <= adj.len(),
    ensures
        0 <= edge_term(adj, col, k) <= k * (adj.len() * width(col)),
    decreases k,
{
    if k > 0 {
        lemma_edge_term_bound(adj, col, k - 1);
        lemma_edge_row_bound(adj, col, k - 1, adj.len() as int);
        let w = adj.len() * width(col);
        assert((k - 1) * w + w == k * w) by (nonlinear_arith);
    }
}

/// The energy of any coloring is at least 0 and fits comfortably in an `i64`.
pub proof fn lemma_energy_bounds(adj: Seq<Seq<i64>>, col: Seq<Seq<i64>>, a: int)
    requires
        scoring_inputs(adj, col),
        0 < a <= MAX_PENALTY,
    ensures
        0 <= vertex_term(col, col.len() as int) <= 0x1_0100_1000_0000,
        0 <= edge_term(adj, col, adj.len() as int) <= 0x1_0000_0000_0000,
        0 <= energy_of(adj, col, a) <= 0x1000_0000_0000_0000,
{
    let n = adj.len() as int;
    let c = width(col);
    lemma_vertex_term_bound(col, n);
    lemma_edge_term_bound(adj, col, n);
    assert(n * ((c + 1) * (c + 1)) <= 0x1_0100_1000_0000) by (nonlinear_arith)
        requires
            0 <= n <= 4096,
            0 <= c <= 4096,
    ;
    assert(n * (n * c) <= 0x1_0000_0000_0000) by (nonlinear_arith)
        requires
            0 <= n <= 4096,
            0 <= c <= 4096,
    ;
    let s = vertex_term(col, n) + edge_term(adj, col, n);
    assert(0 <= a * s <= 0x1000_0000_0000_0000) by (nonlinear_arith)
        requires
            0 < a <= 1024,
            0 <= s <= 0x2_0100_1000_0000,
    ;
}

/// How many colors vertex `i` holds in `col`.
pub(crate) fn count_colors(col: &Matrix, i: usize, c: usize) -> (s: i64)
    requires
        i < col@.len(),
        col@[i as int].len() == c,
        c <= MAX_COLORS,
        is_binary(col@),
    ensures
        s == colors_of(col@, i as int),
        0 <= s <= c,
{
    let mut s: i64 = 0;
    let mut j: usize = 0;
    while j < c
        invariant
            j <= c,
            i < col@.len(),
            col@[i as int].len() == c,
            c <= MAX_COLORS,
            is_binary(col@),
            s == row_sum(col@[i as int], j as int),
            0 <= s <= j,
        decreases c - j,
    {
        s = s + col.at(i, j);
        j = j + 1;
    }
    s
}

/// The number of colors that vertices `u` and `v` share.
fn count_shared(col: &Matrix, u: usize, v: usize, c: usize) -> (s: i64)
    requires
        u < col@.len(),
        v < col@.len(),
        col@[u as int].len() == c,
        col@[v as int].len() == c,
        c <= MAX_COLORS,
        is_binary(col@),
    ensures
        s == shared(col@[u as int], col@[v as int], c as int),
        0 <= s <= c,
{
    let mut s: i64 = 0;
    let mut k: usize = 0;
    while k < c
        invariant
            k <= c,
            u < col@.len(),
            v < col@.len(),
            col@[u as int].len() == c,
            col@[v as int].len() == c,
            c <= MAX_COLORS,
            is_binary(col@),
            s == shared(col@[u as int], col@[v as int], k as int),
            0 <= s <= k,
        decreases c - k,
    {
        let x = col.at(u, k);
        let y = col.at(v, k);
        assert(0 <= x * y <= 1) by (nonlinear_arith)
            requires
                x == 0 || x == 1,
                y == 0 || y == 1,
        ;
        s = s + x * y;
        k = k + 1;
    }
    s
}

/// The energy of `coloring` as a coloring of the graph `adj_matrix` under
/// penalty coefficient `a`: `a` times the sum, over vertices, of the squared
/// difference between 1 and the number of colors held, plus the sum, over
/// ordered adjacent pairs, of the colors both ends hold.
pub fn graph_coloring_energy(adj_matrix: &Matrix, coloring: &Matrix, a: i64) -> (e: i64)
    requires
        scoring_inputs(adj_matrix@, coloring@),
        0 < a <= MAX_PENALTY,
    ensures
        e == energy_of(adj_matrix@, coloring@, a as int),
        e >= 0,
{
    let ghost adj = adj_matrix@;
    let ghost col = coloring@;
    let n = coloring.nrows();
    proof {
        lemma_energy_bounds(adj, col, a as int);
    }
    if n == 0 {
        assert(vertex_term(col, 0) == 0 && edge_term(adj, col, 0) == 0);
        assert(a * (0int + 0int) == 0) by (nonlinear_arith);
        return 0;
    }
    let c = coloring.ncols();
    assert(col[0].len() == c);
    let mut vt: i64 = 0;
    let mut i: usize = 0;
    while i < n
        invariant
            i <= n,
            n == col.len(),
            n == adj.len(),
            n > 0,
            c == width(col),
            col == coloring@,
            scoring_inputs(adj, col),
            vt == vertex_term(col, i as int),
            0 <= vt <= i * ((c + 1) * (c + 1)),
        decreases n - i,
    {
        let s = count_colors(coloring, i, c);
        proof {
            lemma_vertex_penalty_bound(col, i as int);
            lemma_vertex_term_bound(col, i as int + 1);
            assert(i * ((c + 1) * (c + 1)) <= 0x1_0100_1000_0000) by (nonlinear_arith)
                requires
                    0 <= i <= 4096,
                    0 <= c <= 4096,
            ;
        }
        let d: i64 = 1 - s;
        assert(0 <= d * d <= 4097 * 4097) by (nonlinear_arith)
            requires
                -4096 <= d <= 1,
        ;
        assert(d * d == vertex_penalty(col, i as int));
        assert(vertex_term(col, i as int + 1) == vt + vertex_penalty(col, i as int));
        vt = vt + d * d;
        i = i + 1;
    }
    let mut et: i64 = 0;
    let mut u: usize = 0;
    while u < n
        invariant
            u <= n,
            n == col.len(),
            n == adj.len(),
            n > 0,
            c == width(col),
            col == coloring@,
            adj == adj_matrix@,
            scoring_inputs(adj, col),
            et == edge_term(adj, col, u as int),
            0 <= et <= u * (n * c),
        decreases n - u,
    {
        let mut er: i64 = 0;
        let mut v: usize = 0;
        while v < n
            invariant
                v <= n,
                u < n,
                n == col.len(),
                n == adj.len(),
                c == width(col),
                col == coloring@,
                adj == adj_matrix@,
                scoring_inputs(adj, col),
                er == edge_row(adj, col, u as int, v as int),
                0 <= er <= v * c,
            decreases n - v,
        {
            proof {
                lemma_edge_row_bound(adj, col, u as int, v as int + 1);
                assert(v * c <= 4096 * 4096) by (nonlinear_arith)
                    requires
                        0 <= v <= 4096,
                        0 <= c <= 4096,
                ;
            }
            if adj_matrix.at(u, v) == 1 {
                let sh = count_shared(coloring, u, v, c);
                assert(col[u as int].len() == c);
                assert(edge_row(adj, col, u as int, v as int + 1) == er + sh);
                er = er + sh;
            }
            v = v + 1;
        }
        assert(edge_term(adj, col, u as int + 1) == et + er);
        proof {
            lemma_edge_term_bound(adj, col, u as int + 1);
            assert(u * (n * c) + n * c <= 0x1_0000_0000_0000) by (nonlinear_arith)
                requires
                    0 <= u < n <= 4096,
                    0 <= c <= 4096,
            ;
        }
        et = et + er;
        u = u + 1;
    }
    a * (vt + et)
}

proof fn lemma_vertex_term_zero(col: Seq<Seq<i64>>, k: int)
    requires
        0 <= k <= col.len(),
        is_binary(col),
    ensures
        vertex_term(col, k) >= 0,
        vertex_term(col, k) == 0 <==> forall|i: int| 0 <= i < k ==> #[trigger] colors_of(col, i) == 1,
    decreases k,
{
    if k > 0 {
        lemma_vertex_term_zero(col, k - 1);
        lemma_vertex_penalty_bound(col, k - 1);
        let s = colors_of(col, k - 1);
        assert((1 - s) * (1 - s) == 0 <==> s == 1) by (nonlinear_arith);
        if vertex_term(col, k) == 0 {
            assert forall|i: int| 0 <= i < k implies #[trigger] colors_of(col, i) == 1 by {
                if i < k - 1 {
                } else {
                    assert(vertex_penalty(col, k - 1) == 0);
                }
            }
        }
    }
}

proof fn lemma_shared_zero(x: Seq<i64>, y: Seq<i64>, k: int)
    requires
        0 <= k <= x.len(),
        k <= y.len(),
        forall|j: int| 0 <= j < x.len() ==> #[trigger] x[j] == 0 || x[j] == 1,
        forall|j: int| 0 <= j < y.len() ==> #[trigger] y[j] == 0 || y[j] == 1,
    ensures
        shared(x, y, k) >= 0,
        shared(x, y, k) == 0 <==> forall|j: int| 0 <= j < k ==> !(#[trigger] x[j] == 1 && y[j] == 1),
    decreases k,
{
    if k > 0 {
        lemma_shared_zero(x, y, k - 1);
        lemma_shared_bounds(x, y, k - 1);
        let xv = x[k - 1];
        let yv = y[k - 1];
        assert(0 <= xv * yv && (xv * yv == 0 <==> !(xv == 1 && yv == 1))) by (nonlinear_arith)
            requires
                xv == 0 || xv == 1,
                yv == 0 || yv == 1,
        ;
        if shared(x, y, k) == 0 {
            assert forall|j: int| 0 <= j < k implies !(#[trigger] x[j] == 1 && y[j] == 1) by {
                if j == k - 1 {
                }
            }
        }
    }
}

proof fn lemma_edge_row_zero(adj: Seq<Seq<i64>>, col: Seq<Seq<i64>>, u: int, k: int)
    requires
        scoring_inputs(adj, col),
        0 <= u < adj.len(),
        0 <= k <= adj.len(),
    ensures
        edge_row(adj, col, u, k) >= 0,
        edge_row(adj, col, u, k) == 0 <==> forall|v: int|
            0 <= v < k ==> #[trigger] pair_penalty(adj, col, u, v) == 0,
    decreases k,
{
    if k > 0 {
        lemma_edge_row_zero(adj, col, u, k - 1);
        assert(col[u].len() == width(col) && col[k - 1].len() == width(col));
        lemma_shared_zero(col[u], col[k - 1], col[u].len() as int);
        if edge_row(adj, col, u, k) == 0 {
            assert forall|v: int| 0 <= v < k implies #[trigger] pair_penalty(adj, col, u, v) == 0 by {
                if v == k - 1 {
                }
            }
        }
    }
}

proof fn lemma_edge_term_zero(adj: Seq<Seq<i64>>, col: Seq<Seq<i64>>, k: int)
    requires
        scoring_inputs(adj, col),
        0 <= k <= adj.len(),
    ensures
        edge_term(adj, col, k) >= 0,
        edge_term(adj, col, k) == 0 <==> forall|u: int, v: int|
            0 <= u < k && 0 <= v < adj.len() ==> #[trigger] pair_penalty(adj, col, u, v) == 0,
    decreases k,
{
    if k > 0 {
        lemma_edge_term_zero(adj, col, k - 1);
        lemma_edge_row_zero(adj, col, k - 1, adj.len() as int);
        if edge_term(adj, col, k) == 0 {
            assert forall|u: int, v: int| 0 <= u < k && 0 <= v < adj.len() implies #[trigger] pair_penalty(
                adj,
                col,
                u,
                v,
            ) == 0 by {
                if u == k - 1 {
                }
            }
        }
    }
}

/// No edge penalty is owed exactly where no two adjacent vertices share a
/// color.
proof fn lemma_no_conflict_pairs(adj: Seq<Seq<i64>>, col: Seq<Seq<i64>>)
    requires
        scoring_inputs(adj, col),
    ensures
        no_conflict(adj, col) <==> forall|u: int, v: int|
            0 <= u < adj.len() && 0 <= v < adj.len() ==> #[trigger] pair_penalty(adj, col, u, v) == 0,
{
    let n = adj.len() as int;
    assert forall|u: int, v: int| 0 <= u < n && 0 <= v < n implies (#[trigger] pair_penalty(
        adj,
        col,
        u,
        v,
    ) == 0 <==> (adj[u][v] == 1 ==> forall|k: int|
        0 <= k < col[u].len() ==> !(#[trigger] col[u][k] == 1 && col[v][k] == 1))) by {
        assert(col[u].len() == width(col) && col[v].len() == width(col));
        lemma_shared_zero(col[u], col[v], col[u].len() as int);
    }
    if no_conflict(adj, col) {
        assert forall|u: int, v: int| 0 <= u < n && 0 <= v < n implies #[trigger] pair_penalty(
            adj,
            col,
            u,
            v,
        ) == 0 by {
            if adj[u][v] == 1 {
                assert forall|k: int| 0 <= k < col[u].len() implies !(#[trigger] col[u][k] == 1
                    && col[v][k] == 1) by {
                    assert(!(col[u][k] == 1 && col[v][k] == 1));
                }
            }
        }
    }
    if forall|u: int, v: int| 0 <= u < n && 0 <= v < n ==> #[trigger] pair_penalty(adj, col, u, v) == 0 {
        assert forall|u: int, v: int, k: int|
            0 <= u < n && 0 <= v < n && 0 <= k < col[u].len() && adj[u][v] == 1 implies !(
        #[trigger] col[u][k] == 1 && #[trigger] col[v][k] == 1) by {
            assert(pair_penalty(adj, col, u, v) == 0);
        }
    }
}

/// The energy is 0 exactly when the coloring gives each vertex one color and
/// no two adjacent vertices the same one; it is never negative.
pub proof fn lemma_energy_zero_iff_proper(adj: Seq<Seq<i64>>, col: Seq<Seq<i64>>, a: int)
    requires
        scoring_inputs(adj, col),
        0 < a,
    ensures
        energy_of(adj, col, a) >= 0,
        energy_of(adj, col, a) == 0 <==> is_proper(adj, col),
        !is_proper(adj, col) ==> energy_of(adj, col, a) >= a,
{
    let n = adj.len() as int;
    lemma_vertex_term_zero(col, n);
    lemma_edge_term_zero(adj, col, n);
    lemma_no_conflict_pairs(adj, col);
    let v = vertex_term(col, n);
    let e = edge_term(adj, col, n);
    assert(a * (v + e) >= 0 && (a * (v + e) == 0 <==> v + e == 0) && (v + e != 0 ==> a * (v + e)
        >= a)) by (nonlinear_arith)
        requires
            0 < a,
            v >= 0,
            e >= 0,
    ;
}

/// A coloring with one color per vertex and no color shared across an edge
/// has energy 0.
pub proof fn lemma_proper_coloring_has_zero_energy(adj: Seq<Seq<i64>>, col: Seq<Seq<i64>>, a: int)
    requires
        scoring_inputs(adj, col),
        0 < a,
        is_proper(adj, col),
    ensures
        energy_of(adj, col, a) == 0,
{
    lemma_energy_zero_iff_proper(adj, col, a);
}

/// A coloring that gives some vertex no color or several, or the same color
/// to both ends of an edge, has energy above 0: at least the penalty `a`.
pub proof fn lemma_improper_coloring_has_positive_energy(
    adj: Seq<Seq<i64>>,
    col: Seq<Seq<i64>>,
    a: int,
)
    requires
        scoring_inputs(adj, col),
        0 < a,
        !is_proper(adj, col),
    ensures
        energy_of(adj, col, a) > 0,
        energy_of(adj, col, a) >= a,
{
    lemma_energy_zero_iff_proper(adj, col, a);
}

} // verus!
