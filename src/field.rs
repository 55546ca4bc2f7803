//! The local field: for each vertex and color, the signal that drives the
//! momentum of the matching spin.

use crate::energy::{colors_of, count_colors, scoring_inputs, width, MAX_PENALTY};
use crate::grid::{has_shape, Matrix};
use vstd::prelude::*;

verus! {

/// Among the first `k` vertices, the neighbours of `i` that hold color `c`.
pub open spec fn neighbour_colors(
    adj: Seq<Seq<i64>>,
    col: Seq<Seq<i64>>,
    i: int,
    c: int,
    k: int,
) -> int
    decreases k,
{
    if k <= 0 {
        0
    } else {
        neighbour_colors(adj, col, i, c, k - 1) + if adj[i][k - 1] == 1 {
            col[k - 1][c] as int
        } else {
            0
        }
    }
}

/// The field on vertex `i`, color `c`: `-2a(1 - colors held by i)` plus `a`
/// times the neighbours of `i` holding `c`.
pub open spec fn field_at(adj: Seq<Seq<i64>>, col: Seq<Seq<i64>>, a: int, i: int, c: int) -> int {
    -2 * a * (1 - colors_of(col, i)) + a * neighbour_colors(adj, col, i, c, adj.len() as int)
}

/// A bound on the size of any field entry.
pub open spec fn field_bound(n: int, c: int, a: int) -> int {
    a * (2 * c + 2 + n)
}

/// `h` is the local field of coloring `col` of `adj` under penalty `a`.
pub open spec fn is_field_of(h: Seq<Seq<i64>>, adj: Seq<Seq<i64>>, col: Seq<Seq<i64>>, a: int) -> bool {
    &&& has_shape(h, col.len() as int, width(col))
    &&& forall|i: int, j: int|
        0 <= i < h.len() && 0 <= j < width(col) ==> #[trigger] h[i][j] == field_at(adj, col, a, i, j)
}

proof fn lemma_neighbour_colors_bound(adj: Seq<Seq<i64>>, col: Seq<Seq<i64>>, i: int, c: int, k: int)
    requires
        scoring_inputs(adj, col),
        0 <= i < adj.len(),
        0 <= c < width(col),
        0 <= k <= adj.len(),
    ensures
        0 <= neighbour_colors(adj, col, i, c, k) <= k,
    decreases k,
{
    if k > 0 {
        lemma_neighbour_colors_bound(adj, col, i, c, k - 1);
        assert(col[k - 1].len() == width(col));
    }
}

/// Every field entry lies within `field_bound` of zero.
pub proof fn lemma_field_bound(adj: Seq<Seq<i64>>, col: Seq<Seq<i64>>, a: int, i: int, c: int)
    requires
        scoring_inputs(adj, col),
        0 < a <= MAX_PENALTY,
        0 <= i < adj.len(),
        0 <= c < width(col),
    ensures
        -field_bound(adj.len() as int, width(col), a) <= field_at(adj, col, a, i, c)
            <= field_bound(adj.len() as int, width(col), a),
        field_bound(adj.len() as int, width(col), a) <= 1024 * (3 * 4096 + 2),
{
    let n = adj.len() as int;
    let w = width(col);
    assert(col[i].len() == w);
    crate::energy::lemma_row_sum_bounds(col[i], w);
    lemma_neighbour_colors_bound(adj, col, i, c, n);
    let s = colors_of(col, i);
    let nb = neighbour_colors(adj, col, i, c, n);
    assert(-(a * (2 * w + 2 + n)) <= -2 * a * (1 - s) + a * nb <= a * (2 * w + 2 + n))
        by (nonlinear_arith)
        requires
            0 <= s <= w,
            0 <= nb <= n,
            0 < a,
    ;
    assert(a * (2 * w + 2 + n) <= 1024 * (3 * 4096 + 2)) by (nonlinear_arith)
        requires
            0 < a <= 1024,
            0 <= w <= 4096,
            0 <= n <= 4096,
    ;
}

/// The neighbours of vertex `i` that hold color `c`.
fn count_neighbour_colors(adj_matrix: &Matrix, coloring: &Matrix, i: usize, c: usize, n: usize) -> (r: i64)
    requires
        scoring_inputs(adj_matrix@, coloring@),
        n == adj_matrix@.len(),
        i < n,
        c < width(coloring@),
    ensures
        r == neighbour_colors(adj_matrix@, coloring@, i as int, c as int, n as int),
{
    let ghost adj = adj_matrix@;
    let ghost col = coloring@;
    let mut r: i64 = 0;
    let mut v: usize = 0;
    while v < n
        invariant
            v <= n,
            i < n,
            n == adj.len(),
            c < width(col),
            adj == adj_matrix@,
            col == coloring@,
            scoring_inputs(adj, col),
            r == neighbour_colors(adj, col, i as int, c as int, v as int),
        decreases n - v,
    {
        proof {
            lemma_neighbour_colors_bound(adj, col, i as int, c as int, v as int + 1);
        }
        assert(col[v as int].len() == width(col));
        if adj_matrix.at(i, v) == 1 {
            r = r + coloring.at(v, c);
        }
        v = v + 1;
    }
    r
}

/// The local field of `coloring` on the graph `adj_matrix` under penalty
/// coefficient `a`: entry `(i, c)` is `-2a(1 - colors held by i)` plus `a`
/// times the number of neighbours of `i` that hold color `c`.
pub fn compute_local_field(adj_matrix: &Matrix, coloring: &Matrix, a: i64) -> (h: Matrix)
    requires
        scoring_inputs(adj_matrix@, coloring@),
        0 < a <= MAX_PENALTY,
    ensures
        is_field_of(h@, adj_matrix@, coloring@, a as int),
{
    let ghost adj = adj_matrix@;
    let ghost col = coloring@;
    let n = coloring.nrows();
    if n == 0 {
        let h = Matrix::zeros(0, 0);
        return h;
    }
    let c = coloring.ncols();
    assert(col[0].len() == c);
    assert(n * c <= 4096 * 4096) by (nonlinear_arith)
        requires
            n <= 4096,
            c <= 4096,
    ;
    let mut h = Matrix::zeros(n, c);
    let mut i: usize = 0;
    while i < n
        invariant
            i <= n,
            n == col.len(),
            n == adj.len(),
            n > 0,
            c == width(col),
            adj == adj_matrix@,
            col == coloring@,
            scoring_inputs(adj, col),
            0 < a <= MAX_PENALTY,
            has_shape(h@, n as int, c as int),
            forall|ii: int, jj: int|
                0 <= ii < i && 0 <= jj < c ==> #[trigger] h@[ii][jj] == field_at(adj, col, a as int, ii, jj),
        decreases n - i,
    {
        assert(col[i as int].len() == c);
        let s = count_colors(coloring, i, c);
        let mut j: usize = 0;
        while j < c
            invariant
                j <= c,
                i < n,
                n == col.len(),
                n == adj.len(),
                c == width(col),
                adj == adj_matrix@,
                col == coloring@,
                scoring_inputs(adj, col),
                0 < a <= MAX_PENALTY,
                s == colors_of(col, i as int),
                0 <= s <= c,
                has_shape(h@, n as int, c as int),
                forall|ii: int, jj: int|
                    0 <= ii < i && 0 <= jj < c ==> #[trigger] h@[ii][jj] == field_at(adj, col, a as int, ii, jj),
                forall|jj: int| 0 <= jj < j ==> #[trigger] h@[i as int][jj] == field_at(adj, col, a as int, i as int, jj),
            decreases c - j,
        {
            let nb = count_neighbour_colors(adj_matrix, coloring, i, j, n);
            proof {
                lemma_field_bound(adj, col, a as int, i as int, j as int);
                lemma_neighbour_colors_bound(adj, col, i as int, j as int, n as int);
                assert(-2 * a * (1 - s) + a * nb <= 1024 * (3 * 4096 + 2));
                assert(-2048 <= -2 * a * (1 - s) <= 8192 * 1024) by (nonlinear_arith)
                    requires
                        0 < a <= 1024,
                        0 <= s <= 4096,
                ;
                assert(0 <= a * nb <= 1024 * 4096) by (nonlinear_arith)
                    requires
                        0 < a <= 1024,
                        0 <= nb <= 4096,
                ;
            }
            let v: i64 = -2 * a * (1 - s) + a * nb;
            let ghost before = h@;
            h.set_at(i, j, v);
            assert forall|ii: int| 0 <= ii < n implies #[trigger] h@[ii].len() == c by {
                assert(before[ii].len() == c);
            }
            j = j + 1;
        }
        i = i + 1;
    }
    h
}

} // verus!
