//! Fresh random spins for the start of a trial.

use crate::energy::{MAX_COLORS, MAX_VERTICES};
use crate::grid::{has_shape, Matrix};
use crate::integrator::is_spins;
use rand::rngs::StdRng;
use rand::Rng;
use vstd::prelude::*;

verus! {

#[verifier::external_type_specification]
#[verifier::external_body]
pub struct ExStdRng(StdRng);

/// Relies on `Rng::gen::<bool>`: one fair random bit drawn from `rng`.
/// Nothing is promised of its value.
#[verifier::external_body]
fn coin(rng: &mut StdRng) -> bool {
    rng.gen::<bool>()
}

/// An `n` by `c` matrix of spins, each +1 or -1 with a fair coin from `rng`.
pub fn random_spins(rng: &mut StdRng, n: usize, c: usize) -> (q: Matrix)
    requires
        n <= MAX_VERTICES,
        c <= MAX_COLORS,
    ensures
        is_spins(q@, n as int, c as int),
{
    assert(n * c <= 4096 * 4096) by (nonlinear_arith)
        requires
            n <= 4096,
            c <= 4096,
    ;
    let mut q = Matrix::zeros(n, c);
    let mut i: usize = 0;
    while i < n
        invariant
            i <= n,
            has_shape(q@, n as int, c as int),
            forall|ii: int, jj: int|
                0 <= ii < i && 0 <= jj < c ==> #[trigger] q@[ii][jj] == 1 || q@[ii][jj] == -1,
        decreases n - i,
    {
        let mut j: usize = 0;
        while j < c
            invariant
                j <= c,
                i < n,
                has_shape(q@, n as int, c as int),
                forall|ii: int, jj: int|
                    0 <= ii < i && 0 <= jj < c ==> #[trigger] q@[ii][jj] == 1 || q@[ii][jj] == -1,
                forall|jj: int| 0 <= jj < j ==> #[trigger] q@[i as int][jj] == 1 || q@[i as int][jj] == -1,
            decreases c - j,
        {
            let ghost before = q@;
            let s: i64 = if coin(rng) {
                1
            } else {
                -1
            };
            q.set_at(i, j, s);
            assert forall|ii: int| 0 <= ii < n implies #[trigger] q@[ii].len() == c by {
                assert(before[ii].len() == c);
            }
            j = j + 1;
        }
        i = i + 1;
    }
    q
}

} // verus!
