//! Calls into outside crates, with the contracts this library relies on.
use itertools::Itertools;
use rand::Rng;
use vstd::prelude::*;

verus! {

/// `p` lists each of 0..n exactly once: a permutation in one-line notation.
pub open spec fn is_perm(p: Seq<usize>, n: nat) -> bool {
    &&& p.len() == n
    &&& forall|i: int| 0 <= i < n ==> #[trigger] p[i] < n
    &&& forall|i: int, j: int| 0 <= i < j < n ==> p[i] != p[j]
    &&& forall|j: int| 0 <= j < n ==> #[trigger] hits(p, j)
}

/// Some entry of `p` is `j`.
pub open spec fn hits(p: Seq<usize>, j: int) -> bool {
    exists|i: int| 0 <= i < p.len() && #[trigger] p[i] == j
}

/// `c` is a strictly increasing choice of `d` positions below `w`.
pub open spec fn is_combination(c: Seq<usize>, w: nat, d: nat) -> bool {
    &&& c.len() == d
    &&& forall|i: int| 0 <= i < c.len() ==> #[trigger] c[i] < w
    &&& forall|i: int, j: int| 0 <= i < j < c.len() ==> c[i] < c[j]
}

/// n! in spec.
pub open spec fn factorial(n: nat) -> nat
    decreases n,
{
    if n == 0 {
        1
    } else {
        n * factorial((n - 1) as nat)
    }
}

/// Relies on itertools' `Itertools::permutations`: `(0..n).permutations(n)` yields every
/// ordering of 0..n once, n! of them.
#[verifier::external_body]
pub(crate) fn all_permutations(n: usize) -> (r: Vec<Vec<usize>>)
    requires
        n <= 20,
    ensures
        r.len() == factorial(n as nat),
        forall|i: int| 0 <= i < r.len() ==> is_perm(#[trigger] r@[i]@, n as nat),
        forall|p: Seq<usize>| is_perm(p, n as nat) ==> exists|i: int| 0 <= i < r.len() && #[trigger] r@[i]@ == p,
        forall|i: int, j: int| 0 <= i < j < r.len() ==> r@[i]@ != r@[j]@,
{
    (0..n).permutations(n).collect()
}

/// Relies on itertools' `Itertools::combinations`: `(0..w).combinations(d)` yields every
/// strictly increasing choice of `d` positions below `w` once (one empty choice for d = 0).
#[verifier::external_body]
pub(crate) fn index_combinations(w: usize, d: usize) -> (r: Vec<Vec<usize>>)
    ensures
        forall|i: int| 0 <= i < r.len() ==> is_combination(#[trigger] r@[i]@, w as nat, d as nat),
        forall|c: Seq<usize>| is_combination(c, w as nat, d as nat) ==> exists|i: int| 0 <= i < r.len() && #[trigger] r@[i]@ == c,
        forall|i: int, j: int| 0 <= i < j < r.len() ==> r@[i]@ != r@[j]@,
{
    (0..w).combinations(d).collect()
}

/// Relies on rand's `Rng::gen_range` on the thread-local generator: a value in
/// `lo..hi`, which must not be empty.
#[verifier::external_body]
pub(crate) fn random_in_range(lo: u64, hi: u64) -> (r: u64)
    requires
        lo < hi,
    ensures
        lo <= r < hi,
{
    rand::thread_rng().gen_range(lo..hi)
}

} // verus!
