//! Subsets of the carrier as masks and as lists of elements.
use crate::codec::{base, lemma_cube_bounds, tag_of};
use crate::hs::{cell, full_mask, has_bit, lemma_base_shl, member};
use crate::perm::{lemma_member_or, lemma_member_singleton, lemma_member_zero};
use std::collections::HashSet;
use vstd::arithmetic::power::*;
use vstd::prelude::*;

verus! {

/// The members of the mask `k` below `i`, in increasing order.
pub open spec fn members_upto(k: u64, i: int) -> Seq<u64>
    decreases i,
{
    if i <= 0 {
        seq![]
    } else {
        let p = members_upto(k, i - 1);
        if member(k, i - 1) {
            p.push((i - 1) as u64)
        } else {
            p
        }
    }
}

/// The positions of the ones among the lowest `n` bits of `k`, in increasing order.
pub fn ones_positions(k: &u64, n: &u64) -> (r: Vec<u64>)
    requires
        *n <= 64,
    ensures
        r@ == members_upto(*k, *n as int),
{
    let mut r: Vec<u64> = Vec::new();
    let mut i: u64 = 0;
    while i < *n
        invariant
            *n <= 64,
            i <= *n,
            r@ == members_upto(*k, i as int),
        decreases *n - i,
    {
        if has_bit(*k, i) {
            r.push(i);
        }
        i = i + 1;
    }
    r
}

/// The elements of the subset that `k` represents in a carrier of `cardinality`
/// elements, in increasing order; `k` must be below 2^cardinality.
pub fn get_subset(k: &u64, cardinality: &u64) -> (r: Vec<u64>)
    requires
        *cardinality < 64,
        *k < base(*cardinality as nat),
    ensures
        r@ == members_upto(*k, *cardinality as int),
{
    ones_positions(k, cardinality)
}

/// The mask of the complement of `k` in a carrier of `cardinality` elements.
pub fn get_complement_subset(k: &u64, cardinality: &u64) -> (r: u64)
    requires
        *cardinality < 64,
        *k <= full_mask(*cardinality as nat),
    ensures
        r == full_mask(*cardinality as nat) - *k,
{
    proof {
        lemma_base_shl(*cardinality);
        vstd::bits::lemma_u64_pow2_no_overflow(*cardinality as nat);
        vstd::bits::lemma_u64_shl_is_mul(1, *cardinality);
    }
    let total: u64 = (1u64 << *cardinality) - 1;
    total - *k
}

/// Every ordered pair of elements of `set`, row by row.
pub fn cartesian_product(set: &Vec<u64>) -> (r: Vec<(u64, u64)>)
    requires
        set.len() * set.len() <= usize::MAX,
    ensures
        r.len() == set.len() * set.len(),
        forall|i: int, j: int|
            0 <= i < set.len() && 0 <= j < set.len() ==> #[trigger] r@[cell(set.len() as nat, i, j)] == (
                set@[i],
                set@[j],
            ),
{
    let n = set.len();
    let mut r: Vec<(u64, u64)> = Vec::new();
    let mut i: usize = 0;
    while i < n
        invariant
            n == set.len(),
            n * n <= usize::MAX,
            i <= n,
            r.len() == i * n,
            forall|a: int, b: int|
                0 <= a < i && 0 <= b < n ==> #[trigger] r@[cell(n as nat, a, b)] == (set@[a], set@[b]),
        decreases n - i,
    {
        let mut j: usize = 0;
        while j < n
            invariant
                n == set.len(),
                i < n,
                j <= n,
                r.len() == i * n + j,
                forall|a: int, b: int|
                    0 <= a < i && 0 <= b < n ==> #[trigger] r@[cell(n as nat, a, b)] == (set@[a], set@[b]),
                forall|b: int| 0 <= b < j ==> #[trigger] r@[cell(n as nat, i as int, b)] == (set@[i as int], set@[b]),
            decreases n - j,
        {
            proof {
                assert forall|a: int, b: int| 0 <= a < i && 0 <= b < n implies cell(n as nat, a, b) < i * n by {
                    assert(a * n + b < i * n) by (nonlinear_arith)
                        requires
                            0 <= a < i,
                            0 <= b < n,
                    ;
                }
                assert(i * n + j <= n * n) by (nonlinear_arith)
                    requires
                        i < n,
                        j <= n,
                ;
            }
            r.push((set[i], set[j]));
            j = j + 1;
        }
        proof {
            assert((i + 1) * n == i * n + n) by (nonlinear_arith);
            assert forall|a: int, b: int| 0 <= a < i + 1 && 0 <= b < n implies #[trigger] r@[cell(n as nat, a, b)] == (set@[a], set@[b]) by {
                if a == i {
                    assert(r@[cell(n as nat, i as int, b)] == (set@[i as int], set@[b]));
                }
            }
        }
        i = i + 1;
    }
    r
}

/// The mask of the subset whose elements `k` lists: bit x is set for each x in `k`.
pub fn subset_as_u64(k: &Vec<u64>) -> (r: u64)
    requires
        forall|i: int| 0 <= i < k.len() ==> #[trigger] k@[i] < 64,
    ensures
        forall|z: int| 0 <= z < 64 ==> (#[trigger] member(r, z) <==> k@.contains(z as u64)),
{
    let mut acc: u64 = 0;
    let mut i: usize = 0;
    proof {
        assert forall|z: int| 0 <= z < 64 implies !#[trigger] member(acc, z) by {
            lemma_member_zero(z as u64);
        }
    }
    while i < k.len()
        invariant
            forall|j: int| 0 <= j < k.len() ==> #[trigger] k@[j] < 64,
            i <= k.len(),
            forall|z: int| 0 <= z < 64 ==> (#[trigger] member(acc, z) <==> k@.take(i as int).contains(z as u64)),
        decreases k.len() - i,
    {
        let x = k[i];
        let ghost before = acc;
        acc = acc | (1u64 << x);
        proof {
            assert forall|z: int| 0 <= z < 64 implies (#[trigger] member(acc, z) <==> k@.take(i as int + 1).contains(z as u64)) by {
                lemma_member_or(before, 1u64 << x, z as u64);
                lemma_member_singleton(x, z as u64);
                let pre = k@.take(i as int);
                let post = k@.take(i as int + 1);
                assert(post =~= pre.push(x));
                assert(member(before, z) <==> pre.contains(z as u64));
                assert(post[pre.len() as int] == x);
                if x == z as u64 {
                    assert(post.contains(z as u64));
                }
                assert(member(acc, z) == (member(before, z) || x == z as u64));
                if pre.contains(z as u64) {
                    let j = choose|j: int| 0 <= j < pre.len() && pre[j] == z as u64;
                    assert(post[j] == z as u64);
                }
                if post.contains(z as u64) {
                    let j = choose|j: int| 0 <= j < post.len() && post[j] == z as u64;
                    if j < i {
                        assert(pre[j] == z as u64);
                    }
                }
            }
        }
        i = i + 1;
    }
    assert(k@.take(k.len() as int) =~= k@);
    acc
}

/// The elements of `v` as a set.
pub fn vec_to_set(v: &Vec<u64>) -> (r: HashSet<u64>)
    ensures
        r@ == v@.to_set(),
{
    let mut r: HashSet<u64> = HashSet::new();
    let mut i: usize = 0;
    while i < v.len()
        invariant
            i <= v.len(),
            r@ == v@.take(i as int).to_set(),
        decreases v.len() - i,
    {
        proof {
            broadcast use vstd::std_specs::hash::group_hash_axioms;
        }
        r.insert(v[i]);
        proof {
            assert(v@.take(i as int + 1) =~= v@.take(i as int).push(v@[i as int]));
            assert(v@.take(i as int + 1).to_set() =~= v@.take(i as int).to_set().insert(v@[i as int])) by {
                broadcast use vstd::seq_lib::group_seq_properties;
            }
        }
        i = i + 1;
    }
    assert(v@.take(v.len() as int) =~= v@);
    r
}

/// Every subset of a carrier of `n` elements, as its elements in increasing order, in
/// the order of the masks 0, 1, ..., 2^n - 1.
pub fn power_set(n: &u64) -> (r: Vec<Vec<u64>>)
    requires
        *n < 64,
    ensures
        r.len() == base(*n as nat),
        forall|i: int| 0 <= i < r.len() ==> #[trigger] r@[i]@ == members_upto(i as u64, *n as int),
{
    proof {
        lemma_base_shl(*n);
    }
    let total: u64 = 1u64 << *n;
    let mut r: Vec<Vec<u64>> = Vec::new();
    let mut i: u64 = 0;
    while i < total
        invariant
            *n < 64,
            total == base(*n as nat),
            i <= total,
            r.len() == i,
            forall|j: int| 0 <= j < r.len() ==> #[trigger] r@[j]@ == members_upto(j as u64, *n as int),
        decreases total - i,
    {
        r.push(get_subset(&i, n));
        i = i + 1;
    }
    r
}

/// The smallest and largest tags scanned for `cardinality` elements: the table whose
/// entries are all {0}, and the all-ones tag of n^3 bits.
pub fn get_min_max(cardinality: &u64) -> (r: (u128, u128))
    requires
        1 <= *cardinality <= 5,
    ensures
        r.0 == tag_of(Seq::new((*cardinality * *cardinality) as nat, |i: int| 1u64), *cardinality as nat),
        r.1 == pow(2, (*cardinality * *cardinality * *cardinality) as nat) - 1,
{
    let n = *cardinality;
    proof {
        lemma_cube_bounds(n as nat);
        assert(n * n * n <= 125) by (nonlinear_arith)
            requires
                n <= 5,
        ;
    }
    let cells = n * n;
    let b = crate::enumeration::pow2_u128(n);
    let ghost ones = Seq::new(cells as nat, |i: int| 1u64);
    proof {
        assert(n * 0 == 0);
        crate::bits::lemma_pow_step(2, 0);
        crate::bits::lemma_pow_step(2, 1);
        lemma_pow_increases(2, 1, n as nat);
        assert(ones.take(0) =~= seq![]);
    }
    let mut min: u128 = 0;
    let mut k: u64 = 0;
    while k < cells
        invariant
            1 <= n <= 5,
            cells == n * n,
            b == pow(2, n as nat),
            b >= 2,
            k <= cells,
            ones == Seq::new(cells as nat, |i: int| 1u64),
            min == tag_of(ones.take(k as int), n as nat),
            min < pow(2, (n * k) as nat),
        decreases cells - k,
    {
        proof {
            assert(ones.take(k as int + 1).drop_last() =~= ones.take(k as int));
            lemma_pow_adds(2, (n * k) as nat, n as nat);
            assert(n * k + n == n * (k + 1)) by (nonlinear_arith);
            assert(n * (k + 1) <= 125) by (nonlinear_arith)
                requires
                    k < n * n,
                    n <= 5,
            ;
            lemma_pow_increases(2, (n * (k + 1)) as nat, 128);
            crate::bits::lemma_pow2_128();
            assert(min * b + 1 < pow(2, (n * (k + 1)) as nat)) by (nonlinear_arith)
                requires
                    min < pow(2, (n * k) as nat),
                    b == pow(2, n as nat),
                    b >= 2,
                    pow(2, (n * k) as nat) * pow(2, n as nat) == pow(2, (n * k + n) as nat),
                    n * k + n == n * (k + 1),
            ;
        }
        min = min * b + 1;
        k = k + 1;
    }
    assert(ones.take(cells as int) =~= ones);
    proof {
        lemma_pow_positive(2, (n * n * n) as nat);
    }
    let max = crate::enumeration::pow2_u128(n * n * n) - 1;
    (min, max)
}

} // verus!
