//! The cubic lattice on which a block of particles is set up.

use vstd::arithmetic::div_mod::{lemma_div_denominator, lemma_fundamental_div_mod_converse};
use vstd::prelude::*;

verus! {

/// The place of the point `(i, j, k)` in the lattice of side `n`, where `i`
/// counts slowest and `k` fastest.
pub open spec fn rank(n: int, i: int, j: int, k: int) -> int {
    (i * n + j) * n + k
}

/// The point at place `r` of the lattice of side `n`.
pub open spec fn lattice_point(n: int, r: int) -> (isize, isize, isize) {
    ((r / (n * n)) as isize, ((r / n) % n) as isize, (r % n) as isize)
}

/// The point at the place of `(i, j, k)` is `(i, j, k)`.
pub proof fn lemma_rank(n: int, i: int, j: int, k: int)
    requires
        0 <= i < n <= isize::MAX,
        0 <= j < n,
        0 <= k < n,
    ensures
        0 <= rank(n, i, j, k) < n * n * n,
        lattice_point(n, rank(n, i, j, k)) == (i as isize, j as isize, k as isize),
{
    let r = rank(n, i, j, k);
    let upper = i * n + j;
    assert(0 <= upper < n * n) by (nonlinear_arith)
        requires
            0 <= i < n,
            0 <= j < n,
            upper == i * n + j,
    ;
    assert(0 <= r < n * n * n) by (nonlinear_arith)
        requires
            0 <= upper < n * n,
            0 <= k < n,
            r == upper * n + k,
    ;
    lemma_fundamental_div_mod_converse(r, n, upper, k);
    lemma_fundamental_div_mod_converse(upper, n, i, j);
    lemma_div_denominator(r, n, n);
}

/// Lists the points of the cubic lattice with `particle_per_side` points
/// along each side: all `(i, j, k)` with coordinates in
/// `0 .. particle_per_side`, `i` slowest and `k` fastest.  A side that is not
/// positive gives no point.
pub fn cube_lattice(particle_per_side: isize) -> (points: Vec<(isize, isize, isize)>)
    ensures
        particle_per_side <= 0 ==> points@.len() == 0,
        particle_per_side > 0 ==> points@.len() == particle_per_side * particle_per_side
            * particle_per_side,
        forall|r: int|
            0 <= r < points@.len() ==> #[trigger] points@[r] == lattice_point(
                particle_per_side as int,
                r,
            ),
{
    let n = particle_per_side;
    let mut points: Vec<(isize, isize, isize)> = Vec::new();
    let mut i: isize = 0;
    while i < n
        invariant
            0 <= i,
            i <= n || i == 0,
            points@.len() == rank(n as int, i as int, 0, 0),
            forall|r: int|
                0 <= r < points@.len() ==> #[trigger] points@[r] == lattice_point(n as int, r),
        decreases n - i,
    {
        let mut j: isize = 0;
        while j < n
            invariant
                0 <= i < n,
                0 <= j <= n,
                points@.len() == rank(n as int, i as int, j as int, 0),
                forall|r: int|
                    0 <= r < points@.len() ==> #[trigger] points@[r] == lattice_point(n as int, r),
            decreases n - j,
        {
            let mut k: isize = 0;
            while k < n
                invariant
                    0 <= i < n,
                    0 <= j < n,
                    0 <= k <= n,
                    points@.len() == rank(n as int, i as int, j as int, k as int),
                    forall|r: int|
                        0 <= r < points@.len() ==> #[trigger] points@[r] == lattice_point(
                            n as int,
                            r,
                        ),
                decreases n - k,
            {
                proof {
                    lemma_rank(n as int, i as int, j as int, k as int);
                }
                points.push((i, j, k));
                k = k + 1;
            }
            assert(rank(n as int, i as int, j as int, n as int) == rank(
                n as int,
                i as int,
                j + 1,
                0,
            )) by (nonlinear_arith);
            j = j + 1;
        }
        assert(rank(n as int, i as int, n as int, 0) == rank(n as int, i + 1, 0, 0))
            by (nonlinear_arith);
        i = i + 1;
    }
    assert(n > 0 ==> rank(n as int, n as int, 0, 0) == n * n * n) by (nonlinear_arith);
    assert(rank(n as int, 0, 0, 0) == 0) by (nonlinear_arith);
    points
}

} // verus!
