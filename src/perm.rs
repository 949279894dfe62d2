//! The symmetric group acting on tables: relabelling elements gives isomorphic tables.
use crate::codec::base;
use crate::hs::{
    assoc_at, associative, col_or, full_mask, hypergroup, in_some_product, lemma_mul_members, mul_spec,
    reproductive, row_or,
    cell, entry, lemma_cell, lemma_or_below, member, singleton, table_wf, HyperGroupoidMat,
};
use crate::outside::{hits, is_perm};
use vstd::arithmetic::div_mod::*;
use vstd::prelude::*;

verus! {

/// The mask `m` relabelled by `sigma`, over its members below `k`: member i becomes
/// member `sigma[i]`.
pub open spec fn relabel_upto(m: u64, sigma: Seq<usize>, k: int) -> u64
    decreases k,
{
    if k <= 0 {
        0
    } else {
        let prev = relabel_upto(m, sigma, k - 1);
        if member(m, k - 1) {
            prev | singleton(sigma[k - 1] as int)
        } else {
            prev
        }
    }
}

/// The mask `m` relabelled by the permutation `sigma`.
pub open spec fn relabel(m: u64, sigma: Seq<usize>) -> u64 {
    relabel_upto(m, sigma, sigma.len() as int)
}

/// `s` is the table `t` relabelled by `sigma`: the product sigma(x) o sigma(y) in `s`
/// is sigma applied to x o y in `t`.
pub open spec fn iso_image(t: Seq<u64>, s: Seq<u64>, sigma: Seq<usize>, n: nat) -> bool {
    &&& s.len() == n * n
    &&& forall|x: int, y: int|
        0 <= x < n && 0 <= y < n ==> #[trigger] entry(s, n, sigma[x] as int, sigma[y] as int)
            == relabel(entry(t, n, x, y), sigma)
}

/// The permutation that applies `sigma` first and `tau` after.
pub open spec fn compose(tau: Seq<usize>, sigma: Seq<usize>) -> Seq<usize> {
    Seq::new(sigma.len(), |i: int| tau[sigma[i] as int])
}

/// The identity permutation on `n` elements.
pub open spec fn identity_perm(n: nat) -> Seq<usize> {
    Seq::new(n, |i: int| i as usize)
}

pub proof fn lemma_member_or(a: u64, b: u64, z: u64)
    requires
        z < 64,
    ensures
        member(a | b, z as int) == (member(a, z as int) || member(b, z as int)),
{
    assert(z < 64 ==> ((((a | b) >> z) & 1u64 == 1u64) == (((a >> z) & 1u64 == 1u64) || ((b >> z)
        & 1u64 == 1u64)))) by (bit_vector);
}

pub proof fn lemma_member_singleton(s: u64, z: u64)
    requires
        s < 64,
        z < 64,
    ensures
        member(1u64 << s, z as int) == (s == z),
        (1u64 << s) != 0,
{
    assert(s < 64 && z < 64 ==> ((((1u64 << s) >> z) & 1u64 == 1u64) == (s == z))) by (bit_vector);
    assert(s < 64 ==> (1u64 << s) != 0) by (bit_vector);
}

pub proof fn lemma_member_zero(z: u64)
    requires
        z < 64,
    ensures
        !member(0, z as int),
{
    assert(z < 64 ==> ((0u64 >> z) & 1u64) != 1u64) by (bit_vector);
}

/// The members of a relabelled mask.
proof fn lemma_relabel_members(m: u64, sigma: Seq<usize>, k: int, z: int)
    requires
        0 <= k <= sigma.len(),
        sigma.len() < 64,
        forall|i: int| 0 <= i < sigma.len() ==> #[trigger] sigma[i] < 64,
        0 <= z < 64,
    ensures
        member(relabel_upto(m, sigma, k), z) <==> exists|i: int|
            0 <= i < k && #[trigger] member(m, i) && sigma[i] == z,
    decreases k,
{
    if k <= 0 {
        lemma_member_zero(z as u64);
    } else {
        lemma_relabel_members(m, sigma, k - 1, z);
        let prev = relabel_upto(m, sigma, k - 1);
        if member(m, k - 1) {
            lemma_member_or(prev, singleton(sigma[k - 1] as int), z as u64);
            lemma_member_singleton(sigma[k - 1] as u64, z as u64);
        }
        if exists|i: int| 0 <= i < k && #[trigger] member(m, i) && sigma[i] == z {
            let i = choose|i: int| 0 <= i < k && #[trigger] member(m, i) && sigma[i] == z;
            if i < k - 1 {
                assert(exists|i2: int| 0 <= i2 < k - 1 && #[trigger] member(m, i2) && sigma[i2] == z);
            }
        }
    }
}

proof fn lemma_mask_step(m: u64, k: u64)
    requires
        k < 63,
    ensures
        member(m, k as int) ==> (m & ((1u64 << k) - 1) as u64) | (1u64 << k) == m & ((1u64 << (k + 1) as u64) - 1) as u64,
        !member(m, k as int) ==> (m & ((1u64 << k) - 1) as u64) == m & ((1u64 << (k + 1) as u64) - 1) as u64,
{
    assert(k < 63 && (m >> k) & 1u64 == 1u64 ==> (m & ((1u64 << k) - 1) as u64) | (1u64 << k)
        == m & ((1u64 << (k + 1) as u64) - 1) as u64) by (bit_vector);
    assert(k < 63 && (m >> k) & 1u64 != 1u64 ==> (m & ((1u64 << k) - 1) as u64) == m & ((1u64 << (
    k + 1) as u64) - 1) as u64) by (bit_vector);
}

/// Relabelling by the identity keeps the members below `k`.
proof fn lemma_relabel_identity_upto(m: u64, n: nat, k: int)
    requires
        n < 64,
        0 <= k <= n,
    ensures
        relabel_upto(m, identity_perm(n), k) == m & ((1u64 << (k as u64)) - 1) as u64,
    decreases k,
{
    if k == 0 {
        assert(m & ((1u64 << 0u64) - 1) as u64 == 0) by (bit_vector);
    } else {
        lemma_relabel_identity_upto(m, n, k - 1);
        lemma_mask_step(m, (k - 1) as u64);
        assert(identity_perm(n)[k - 1] == (k - 1) as usize);
    }
}

/// Relabelling by the identity keeps every mask of the carrier.
pub proof fn lemma_relabel_identity(m: u64, n: nat)
    requires
        n < 64,
        m < base(n),
    ensures
        relabel(m, identity_perm(n)) == m,
{
    lemma_relabel_identity_upto(m, n, n as int);
    crate::hs::lemma_base_shl(n as u64);
    let nn = n as u64;
    assert(nn < 64 && m < (1u64 << nn) ==> m & ((1u64 << nn) - 1) as u64 == m) by (bit_vector);
}

proof fn lemma_members_prefix(a: u64, b: u64, k: u64)
    requires
        k <= 63,
        forall|z: int| 0 <= z < 64 ==> #[trigger] member(a, z) == member(b, z),
    ensures
        a & ((1u64 << k) - 1) as u64 == b & ((1u64 << k) - 1) as u64,
    decreases k,
{
    if k == 0 {
        assert(a & ((1u64 << 0u64) - 1) as u64 == 0) by (bit_vector);
        assert(b & ((1u64 << 0u64) - 1) as u64 == 0) by (bit_vector);
    } else {
        let k0 = (k - 1) as u64;
        lemma_members_prefix(a, b, k0);
        lemma_mask_step(a, k0);
        lemma_mask_step(b, k0);
        assert(member(a, k0 as int) == member(b, k0 as int));
    }
}

proof fn lemma_no_members_prefix(m: u64, k: u64)
    requires
        k <= 63,
        forall|i: int| 0 <= i < k ==> !#[trigger] member(m, i),
    ensures
        m & ((1u64 << k) - 1) as u64 == 0,
    decreases k,
{
    if k == 0 {
        assert(m & ((1u64 << 0u64) - 1) as u64 == 0) by (bit_vector);
    } else {
        let k0 = (k - 1) as u64;
        lemma_no_members_prefix(m, k0);
        lemma_mask_step(m, k0);
        assert(!member(m, k0 as int));
    }
}

/// Two masks with the same members are equal.
proof fn lemma_members_determine(a: u64, b: u64)
    requires
        forall|z: int| 0 <= z < 64 ==> #[trigger] member(a, z) == member(b, z),
    ensures
        a == b,
{
    lemma_members_prefix(a, b, 63);
    assert(member(a, 63) == member(b, 63));
    assert(((a >> 63u64) & 1u64 == 1u64) == ((b >> 63u64) & 1u64 == 1u64) && a & ((1u64 << 63u64) - 1) as u64
        == b & ((1u64 << 63u64) - 1) as u64 ==> a == b) by (bit_vector);
}

/// Relabelling by `sigma` and then by `tau` is relabelling by their composition.
pub proof fn lemma_relabel_compose(m: u64, sigma: Seq<usize>, tau: Seq<usize>, n: nat)
    requires
        n < 64,
        is_perm(sigma, n),
        is_perm(tau, n),
    ensures
        relabel(relabel(m, sigma), tau) == relabel(m, compose(tau, sigma)),
{
    let ts = compose(tau, sigma);
    let rs = relabel(m, sigma);
    assert forall|z: int| 0 <= z < 64 implies #[trigger] member(relabel(rs, tau), z) == member(
        relabel(m, ts),
        z,
    ) by {
        lemma_relabel_members(rs, tau, n as int, z);
        lemma_relabel_members(m, ts, n as int, z);
        if member(relabel(rs, tau), z) {
            let j = choose|j: int| 0 <= j < n && #[trigger] member(rs, j) && tau[j] == z;
            lemma_relabel_members(m, sigma, n as int, j);
            let i = choose|i: int| 0 <= i < n && #[trigger] member(m, i) && sigma[i] == j;
            assert(ts[i] == z);
        }
        if member(relabel(m, ts), z) {
            let i = choose|i: int| 0 <= i < n && #[trigger] member(m, i) && ts[i] == z;
            let j = sigma[i] as int;
            lemma_relabel_members(m, sigma, n as int, j);
            assert(member(rs, j));
        }
    }
    lemma_members_determine(relabel(rs, tau), relabel(m, ts));
}

/// A relabelled non-empty mask of the carrier is a non-empty mask of the carrier.
proof fn lemma_relabel_in_carrier(m: u64, sigma: Seq<usize>, n: nat)
    requires
        1 <= n < 64,
        is_perm(sigma, n),
        0 < m < base(n),
    ensures
        0 < relabel(m, sigma) < base(n),
{
    crate::hs::lemma_base_shl(n as u64);
    let nn = n as u64;
    assert forall|k: int| 0 <= k <= n implies #[trigger] relabel_upto(m, sigma, k) < (1u64 << nn) by {
        lemma_relabel_below(m, sigma, n, k);
    }
    // some member below n exists
    if forall|i: int| 0 <= i < n ==> !#[trigger] member(m, i) {
        lemma_no_members_prefix(m, nn);
        assert(nn < 64 && m < (1u64 << nn) ==> m & ((1u64 << nn) - 1) as u64 == m) by (bit_vector);
    }
    let i = choose|i: int| 0 <= i < n && #[trigger] member(m, i);
    lemma_relabel_members(m, sigma, n as int, sigma[i] as int);
    assert(member(relabel(m, sigma), sigma[i] as int));
    let r = relabel(m, sigma);
    let z = sigma[i] as u64;
    assert(z < 64 && (r >> z) & 1u64 == 1u64 ==> r != 0) by (bit_vector);
}

proof fn lemma_relabel_below(m: u64, sigma: Seq<usize>, n: nat, k: int)
    requires
        1 <= n < 64,
        is_perm(sigma, n),
        0 <= k <= n,
    ensures
        relabel_upto(m, sigma, k) < (1u64 << (n as u64)),
    decreases k,
{
    let nn = n as u64;
    assert(nn < 64 ==> 0u64 < (1u64 << nn)) by (bit_vector);
    if k > 0 {
        lemma_relabel_below(m, sigma, n, k - 1);
        if member(m, k - 1) {
            let s = sigma[k - 1] as u64;
            assert(s < nn && nn < 64 ==> (1u64 << s) < (1u64 << nn)) by (bit_vector);
            lemma_or_below(relabel_upto(m, sigma, k - 1), 1u64 << s, nn);
        }
    }
}

/// Distinct cells of an n x n table have distinct positions.
proof fn lemma_cell_injective(n: nat, a: int, b: int, c: int, d: int)
    requires
        0 <= a < n,
        0 <= b < n,
        0 <= c < n,
        0 <= d < n,
        cell(n, a, b) == cell(n, c, d),
    ensures
        a == c && b == d,
{
    if a < c {
        assert(a * n + b < c * n + d) by (nonlinear_arith)
            requires
                a < c,
                0 <= b < n,
                0 <= d,
        ;
    } else if a > c {
        assert(c * n + d < a * n + b) by (nonlinear_arith)
            requires
                c < a,
                0 <= d < n,
                0 <= b,
        ;
    }
}

/// Every position of an n x n table is the cell (p / n, p % n).
pub proof fn lemma_cell_cover(n: nat, p: int)
    requires
        n >= 1,
        0 <= p < n * n,
    ensures
        0 <= p / (n as int) < n,
        0 <= p % (n as int) < n,
        cell(n, p / (n as int), p % (n as int)) == p,
{
    lemma_fundamental_div_mod(p, n as int);
    lemma_mod_pos_bound(p, n as int);
    lemma_div_pos_is_pos(p, n as int);
    vstd::arithmetic::mul::lemma_mul_is_commutative(p / (n as int), n as int);
    if p / (n as int) >= n {
        assert(false) by (nonlinear_arith)
            requires
                p == n * (p / (n as int)) + p % (n as int),
                p / (n as int) >= n,
                p < n * n,
                p % (n as int) >= 0,
                n >= 1,
        ;
    }
}

/// The identity permutation leaves every table as it is.
pub proof fn lemma_image_identity(t: Seq<u64>, s: Seq<u64>, n: nat)
    requires
        table_wf(t, n),
        iso_image(t, s, identity_perm(n), n),
    ensures
        s == t,
{
    assert forall|p: int| 0 <= p < n * n implies s[p] == t[p] by {
        lemma_cell_cover(n, p);
        let x = p / (n as int);
        let y = p % (n as int);
        assert(entry(s, n, identity_perm(n)[x] as int, identity_perm(n)[y] as int) == relabel(
            entry(t, n, x, y),
            identity_perm(n),
        ));
        lemma_relabel_identity(t[p], n);
    }
    assert(s =~= t);
}

/// A table has one relabelling by each permutation.
pub proof fn lemma_iso_image_unique(t: Seq<u64>, s1: Seq<u64>, s2: Seq<u64>, sigma: Seq<usize>, n: nat)
    requires
        n >= 1,
        is_perm(sigma, n),
        iso_image(t, s1, sigma, n),
        iso_image(t, s2, sigma, n),
    ensures
        s1 == s2,
{
    assert forall|p: int| 0 <= p < n * n implies s1[p] == s2[p] by {
        lemma_cell_cover(n, p);
        let a = p / (n as int);
        let b = p % (n as int);
        assert(hits(sigma, a));
        let xa = choose|i: int| 0 <= i < sigma.len() && #[trigger] sigma[i] == a;
        assert(hits(sigma, b));
        let xb = choose|i: int| 0 <= i < sigma.len() && #[trigger] sigma[i] == b;
        assert(entry(s1, n, sigma[xa] as int, sigma[xb] as int) == relabel(entry(t, n, xa, xb), sigma));
        assert(entry(s2, n, sigma[xa] as int, sigma[xb] as int) == relabel(entry(t, n, xa, xb), sigma));
    }
    assert(s1 =~= s2);
}

/// Applying `sigma` and then `tau` to a table is applying their composition.
pub proof fn lemma_image_compose(
    t: Seq<u64>,
    s1: Seq<u64>,
    s2: Seq<u64>,
    s3: Seq<u64>,
    sigma: Seq<usize>,
    tau: Seq<usize>,
    n: nat,
)
    requires
        table_wf(t, n),
        is_perm(sigma, n),
        is_perm(tau, n),
        iso_image(t, s1, sigma, n),
        iso_image(s1, s2, tau, n),
        iso_image(t, s3, compose(tau, sigma), n),
    ensures
        s2 == s3,
{
    let ts = compose(tau, sigma);
    assert forall|p: int| 0 <= p < n * n implies s2[p] == s3[p] by {
        lemma_cell_cover(n, p);
        let a = p / (n as int);
        let b = p % (n as int);
        assert(hits(tau, a));
        let ja = choose|j: int| 0 <= j < tau.len() && #[trigger] tau[j] == a;
        assert(hits(sigma, ja));
        let xa = choose|i: int| 0 <= i < sigma.len() && #[trigger] sigma[i] == ja;
        assert(hits(tau, b));
        let jb = choose|j: int| 0 <= j < tau.len() && #[trigger] tau[j] == b;
        assert(hits(sigma, jb));
        let xb = choose|i: int| 0 <= i < sigma.len() && #[trigger] sigma[i] == jb;
        assert(entry(s1, n, sigma[xa] as int, sigma[xb] as int) == relabel(entry(t, n, xa, xb), sigma));
        assert(entry(s2, n, tau[ja] as int, tau[jb] as int) == relabel(entry(s1, n, ja, jb), tau));
        assert(entry(s3, n, ts[xa] as int, ts[xb] as int) == relabel(entry(t, n, xa, xb), ts));
        lemma_relabel_compose(entry(t, n, xa, xb), sigma, tau, n);
    }
    assert(s2 =~= s3);
}

/// Relabelling the mask of {a} gives the mask of {sigma[a]}.
proof fn lemma_relabel_singleton(a: int, sigma: Seq<usize>, n: nat)
    requires
        n < 64,
        is_perm(sigma, n),
        0 <= a < n,
    ensures
        relabel(singleton(a), sigma) == singleton(sigma[a] as int),
{
    assert forall|z: int| 0 <= z < 64 implies #[trigger] member(relabel(singleton(a), sigma), z) == member(
        singleton(sigma[a] as int),
        z,
    ) by {
        lemma_relabel_members(singleton(a), sigma, n as int, z);
        lemma_member_singleton(sigma[a] as u64, z as u64);
        lemma_member_singleton(a as u64, a as u64);
        if member(relabel(singleton(a), sigma), z) {
            let i = choose|i: int| 0 <= i < n && #[trigger] member(singleton(a), i) && sigma[i] == z;
            lemma_member_singleton(a as u64, i as u64);
        }
    }
    lemma_members_determine(relabel(singleton(a), sigma), singleton(sigma[a] as int));
}

/// Relabelling commutes with the product of subsets: the relabelled table multiplies
/// relabelled subsets into the relabelled product.
proof fn lemma_mul_relabel(t: Seq<u64>, s: Seq<u64>, sigma: Seq<usize>, n: nat, k: u64, l: u64)
    requires
        table_wf(t, n),
        is_perm(sigma, n),
        iso_image(t, s, sigma, n),
    ensures
        mul_spec(s, n, relabel(k, sigma), relabel(l, sigma)) == relabel(mul_spec(t, n, k, l), sigma),
{
    let rk = relabel(k, sigma);
    let rl = relabel(l, sigma);
    let m = mul_spec(t, n, k, l);
    assert forall|z: int| 0 <= z < 64 implies #[trigger] member(mul_spec(s, n, rk, rl), z) == member(
        relabel(m, sigma),
        z,
    ) by {
        lemma_mul_members(s, n, rk, rl, z);
        lemma_relabel_members(m, sigma, n as int, z);
        if member(mul_spec(s, n, rk, rl), z) {
            let (x1, y1) = choose|x1: int, y1: int|
                #![trigger member(rk, x1), member(rl, y1)]
                0 <= x1 < n && 0 <= y1 < n && member(rk, x1) && member(rl, y1) && member(entry(s, n, x1, y1), z);
            lemma_relabel_members(k, sigma, n as int, x1);
            lemma_relabel_members(l, sigma, n as int, y1);
            let x = choose|x: int| 0 <= x < n && #[trigger] member(k, x) && sigma[x] == x1;
            let y = choose|y: int| 0 <= y < n && #[trigger] member(l, y) && sigma[y] == y1;
            assert(entry(s, n, sigma[x] as int, sigma[y] as int) == relabel(entry(t, n, x, y), sigma));
            lemma_relabel_members(entry(t, n, x, y), sigma, n as int, z);
            let w = choose|w: int| 0 <= w < n && #[trigger] member(entry(t, n, x, y), w) && sigma[w] == z;
            lemma_mul_members(t, n, k, l, w);
            assert(in_some_product(t, n, k, l, w));
            assert(member(m, w));
        }
        if member(relabel(m, sigma), z) {
            let w = choose|w: int| 0 <= w < n && #[trigger] member(m, w) && sigma[w] == z;
            lemma_mul_members(t, n, k, l, w);
            let (x, y) = choose|x: int, y: int|
                #![trigger member(k, x), member(l, y)]
                0 <= x < n && 0 <= y < n && member(k, x) && member(l, y) && member(entry(t, n, x, y), w);
            lemma_relabel_members(k, sigma, n as int, sigma[x] as int);
            lemma_relabel_members(l, sigma, n as int, sigma[y] as int);
            assert(member(rk, sigma[x] as int));
            assert(member(rl, sigma[y] as int));
            assert(entry(s, n, sigma[x] as int, sigma[y] as int) == relabel(entry(t, n, x, y), sigma));
            lemma_relabel_members(entry(t, n, x, y), sigma, n as int, z);
            assert(member(entry(s, n, sigma[x] as int, sigma[y] as int), z));
            assert(in_some_product(s, n, rk, rl, z));
        }
    }
    lemma_members_determine(mul_spec(s, n, rk, rl), relabel(m, sigma));
}

/// Relabelling keeps associativity.
proof fn lemma_associative_image(t: Seq<u64>, s: Seq<u64>, sigma: Seq<usize>, n: nat)
    requires
        table_wf(t, n),
        is_perm(sigma, n),
        iso_image(t, s, sigma, n),
        associative(t, n),
    ensures
        associative(s, n),
{
    assert forall|a1: int, b1: int, c1: int| 0 <= a1 < n && 0 <= b1 < n && 0 <= c1 < n implies #[trigger] assoc_at(
        s,
        n,
        a1,
        b1,
        c1,
    ) by {
        assert(hits(sigma, a1));
        assert(hits(sigma, b1));
        assert(hits(sigma, c1));
        let a = choose|i: int| 0 <= i < sigma.len() && #[trigger] sigma[i] == a1;
        let b = choose|i: int| 0 <= i < sigma.len() && #[trigger] sigma[i] == b1;
        let c = choose|i: int| 0 <= i < sigma.len() && #[trigger] sigma[i] == c1;
        lemma_relabel_singleton(a, sigma, n);
        lemma_relabel_singleton(b, sigma, n);
        lemma_relabel_singleton(c, sigma, n);
        let (sa, sb, sc) = (singleton(a), singleton(b), singleton(c));
        assert(assoc_at(t, n, a, b, c));
        lemma_mul_relabel(t, s, sigma, n, sa, sb);
        lemma_mul_relabel(t, s, sigma, n, mul_spec(t, n, sa, sb), sc);
        lemma_mul_relabel(t, s, sigma, n, sb, sc);
        lemma_mul_relabel(t, s, sigma, n, sa, mul_spec(t, n, sb, sc));
    }
}

proof fn lemma_row_or_members(t: Seq<u64>, n: nat, x: int, b: int, z: int)
    requires
        0 <= z < 64,
        0 <= b,
    ensures
        member(row_or(t, n, x, b), z) <==> exists|y: int| 0 <= y < b && #[trigger] member(entry(t, n, x, y), z),
    decreases b,
{
    if b <= 0 {
        lemma_member_zero(z as u64);
    } else {
        lemma_row_or_members(t, n, x, b - 1, z);
        lemma_member_or(row_or(t, n, x, b - 1), entry(t, n, x, b - 1), z as u64);
        if exists|y: int| 0 <= y < b && #[trigger] member(entry(t, n, x, y), z) {
            let y = choose|y: int| 0 <= y < b && #[trigger] member(entry(t, n, x, y), z);
            if y < b - 1 {
                assert(exists|y2: int| 0 <= y2 < b - 1 && #[trigger] member(entry(t, n, x, y2), z));
            }
        }
    }
}

proof fn lemma_col_or_members(t: Seq<u64>, n: nat, y: int, b: int, z: int)
    requires
        0 <= z < 64,
        0 <= b,
    ensures
        member(col_or(t, n, y, b), z) <==> exists|x: int| 0 <= x < b && #[trigger] member(entry(t, n, x, y), z),
    decreases b,
{
    if b <= 0 {
        lemma_member_zero(z as u64);
    } else {
        lemma_col_or_members(t, n, y, b - 1, z);
        lemma_member_or(col_or(t, n, y, b - 1), entry(t, n, b - 1, y), z as u64);
        if exists|x: int| 0 <= x < b && #[trigger] member(entry(t, n, x, y), z) {
            let x = choose|x: int| 0 <= x < b && #[trigger] member(entry(t, n, x, y), z);
            if x < b - 1 {
                assert(exists|x2: int| 0 <= x2 < b - 1 && #[trigger] member(entry(t, n, x2, y), z));
            }
        }
    }
}

proof fn lemma_member_full(n: nat, z: int)
    requires
        n < 64,
        0 <= z < 64,
    ensures
        member(full_mask(n), z) <==> z < n,
{
    let nn = n as u64;
    let zz = z as u64;
    assert(nn < 64 && zz < 64 ==> (((((1u64 << nn) - 1) as u64) >> zz) & 1u64 == 1u64 <==> zz < nn)) by (bit_vector);
}

/// Relabelling keeps reproductivity.
proof fn lemma_reproductive_image(t: Seq<u64>, s: Seq<u64>, sigma: Seq<usize>, n: nat)
    requires
        table_wf(t, n),
        is_perm(sigma, n),
        iso_image(t, s, sigma, n),
        reproductive(t, n),
    ensures
        reproductive(s, n),
{
    assert forall|x1: int| 0 <= x1 < n implies #[trigger] row_or(s, n, x1, n as int) == full_mask(n) && col_or(
        s,
        n,
        x1,
        n as int,
    ) == full_mask(n) by {
        assert(hits(sigma, x1));
        let x = choose|i: int| 0 <= i < sigma.len() && #[trigger] sigma[i] == x1;
        assert(0 <= x < n);
        assert(reproductive(t, n));
        let rx = row_or(t, n, x, n as int);
        assert(rx == full_mask(n) && col_or(t, n, x, n as int) == full_mask(n));
        assert forall|z: int| 0 <= z < 64 implies #[trigger] member(row_or(s, n, x1, n as int), z) == member(
            full_mask(n),
            z,
        ) by {
            lemma_member_full(n, z);
            lemma_row_or_members(s, n, x1, n as int, z);
            if z < n {
                assert(hits(sigma, z));
                let w = choose|i: int| 0 <= i < sigma.len() && #[trigger] sigma[i] == z;
                lemma_member_full(n, w);
                lemma_row_or_members(t, n, x, n as int, w);
                let y = choose|y: int| 0 <= y < n && #[trigger] member(entry(t, n, x, y), w);
                assert(entry(s, n, sigma[x] as int, sigma[y] as int) == relabel(entry(t, n, x, y), sigma));
                lemma_relabel_members(entry(t, n, x, y), sigma, n as int, z);
                assert(member(entry(s, n, x1, sigma[y] as int), z));
            } else if member(row_or(s, n, x1, n as int), z) {
                let y1 = choose|y: int| 0 <= y < n && #[trigger] member(entry(s, n, x1, y), z);
                assert(hits(sigma, y1));
                let y = choose|i: int| 0 <= i < sigma.len() && #[trigger] sigma[i] == y1;
                assert(entry(s, n, sigma[x] as int, sigma[y] as int) == relabel(entry(t, n, x, y), sigma));
                lemma_relabel_members(entry(t, n, x, y), sigma, n as int, z);
            }
        }
        lemma_members_determine(row_or(s, n, x1, n as int), full_mask(n));
        assert forall|z: int| 0 <= z < 64 implies #[trigger] member(col_or(s, n, x1, n as int), z) == member(
            full_mask(n),
            z,
        ) by {
            lemma_member_full(n, z);
            lemma_col_or_members(s, n, x1, n as int, z);
            if z < n {
                assert(hits(sigma, z));
                let w = choose|i: int| 0 <= i < sigma.len() && #[trigger] sigma[i] == z;
                lemma_member_full(n, w);
                lemma_col_or_members(t, n, x, n as int, w);
                let y = choose|y: int| 0 <= y < n && #[trigger] member(entry(t, n, y, x), w);
                assert(entry(s, n, sigma[y] as int, sigma[x] as int) == relabel(entry(t, n, y, x), sigma));
                lemma_relabel_members(entry(t, n, y, x), sigma, n as int, z);
                assert(member(entry(s, n, sigma[y] as int, x1), z));
            } else if member(col_or(s, n, x1, n as int), z) {
                let y1 = choose|y: int| 0 <= y < n && #[trigger] member(entry(s, n, y, x1), z);
                assert(hits(sigma, y1));
                let y = choose|i: int| 0 <= i < sigma.len() && #[trigger] sigma[i] == y1;
                assert(entry(s, n, sigma[y] as int, sigma[x] as int) == relabel(entry(t, n, y, x), sigma));
                lemma_relabel_members(entry(t, n, y, x), sigma, n as int, z);
            }
        }
        lemma_members_determine(col_or(s, n, x1, n as int), full_mask(n));
    }
}

/// Relabelling the elements of a hypergroup gives a hypergroup: isomorphic images of
/// hypergroups are hypergroups.
pub proof fn lemma_hypergroup_image(t: Seq<u64>, s: Seq<u64>, sigma: Seq<usize>, n: nat)
    requires
        table_wf(t, n),
        is_perm(sigma, n),
        iso_image(t, s, sigma, n),
        hypergroup(t, n),
    ensures
        hypergroup(s, n),
{
    lemma_associative_image(t, s, sigma, n);
    lemma_reproductive_image(t, s, sigma, n);
}

/// The mask `k` relabelled by `sigma`: member i becomes member `sigma[i]`.
pub fn representation_permutation_subset(k: &u64, sigma: &Vec<usize>) -> (r: u64)
    requires
        sigma.len() < 64,
        forall|i: int| 0 <= i < sigma.len() ==> #[trigger] sigma@[i] < 64,
    ensures
        r == relabel(*k, sigma@),
{
    let mut acc: u64 = 0;
    let mut i: usize = 0;
    while i < sigma.len()
        invariant
            sigma.len() < 64,
            forall|j: int| 0 <= j < sigma.len() ==> #[trigger] sigma@[j] < 64,
            i <= sigma.len(),
            acc == relabel_upto(*k, sigma@, i as int),
        decreases sigma.len() - i,
    {
        if crate::hs::has_bit(*k, i as u64) {
            acc = acc | (1u64 << sigma[i] as u64);
        }
        i = i + 1;
    }
    acc
}

/// The permutation matrix of `sigma`, row-major: entry (i, j) is 1 when i = sigma(j).
pub fn permutaton_matrix_from_permutation(n: &u64, sigma: &Vec<usize>) -> (r: Vec<u64>)
    requires
        *n < 64,
        is_perm(sigma@, *n as nat),
    ensures
        r.len() == *n * *n,
        forall|i: int, j: int|
            0 <= i < *n && 0 <= j < *n ==> #[trigger] r@[cell(*n as nat, i, j)] == if i
                == sigma@[j] {
                1u64
            } else {
                0u64
            },
{
    let mut r: Vec<u64> = Vec::new();
    let mut i: u64 = 0;
    while i < *n
        invariant
            *n < 64,
            is_perm(sigma@, *n as nat),
            i <= *n,
            r.len() == i * *n,
            forall|a: int, b: int|
                0 <= a < i && 0 <= b < *n ==> #[trigger] r@[cell(*n as nat, a, b)] == if a
                    == sigma@[b] {
                    1u64
                } else {
                    0u64
                },
        decreases *n - i,
    {
        let mut j: u64 = 0;
        while j < *n
            invariant
                *n < 64,
                is_perm(sigma@, *n as nat),
                i < *n,
                j <= *n,
                r.len() == i * *n + j,
                forall|a: int, b: int|
                    0 <= a < i && 0 <= b < *n ==> #[trigger] r@[cell(*n as nat, a, b)] == if a
                        == sigma@[b] {
                        1u64
                    } else {
                        0u64
                    },
                forall|b: int|
                    0 <= b < j ==> #[trigger] r@[cell(*n as nat, i as int, b)] == if i
                        == sigma@[b] {
                        1u64
                    } else {
                        0u64
                    },
            decreases *n - j,
        {
            proof {
                assert forall|a: int, b: int| 0 <= a < i && 0 <= b < *n implies cell(*n as nat, a, b) < i * *n by {
                    assert(a * *n + b < i * *n) by (nonlinear_arith)
                        requires
                            0 <= a < i,
                            0 <= b < *n,
                    ;
                }
            }
            let v: u64 = if i as usize == sigma[j as usize] { 1 } else { 0 };
            r.push(v);
            j = j + 1;
        }
        proof {
            assert((i + 1) * *n == i * *n + *n) by (nonlinear_arith);
            assert forall|a: int, b: int| 0 <= a < i + 1 && 0 <= b < *n implies #[trigger] r@[cell(
                *n as nat,
                a,
                b,
            )] == if a == sigma@[b] {
                1u64
            } else {
                0u64
            } by {
                if a == i {
                    assert(r@[cell(*n as nat, i as int, b)] == if i == sigma@[b] {
                        1u64
                    } else {
                        0u64
                    });
                }
            }
        }
        i = i + 1;
    }
    r
}

impl HyperGroupoidMat {
    /// The table with every entry relabelled by `sigma`, each in its own place.
    pub fn permutation_of_table(&self, sigma: &Vec<usize>) -> (r: HyperGroupoidMat)
        requires
            self.wf(),
            is_perm(sigma@, self.n as nat),
        ensures
            r.wf(),
            r.n == self.n,
            r.table().len() == self.table().len(),
            forall|p: int| 0 <= p < r.table().len() ==> #[trigger] r.table()[p] == relabel(self.table()[p], sigma@),
    {
        let mut out: Vec<u64> = Vec::new();
        let mut p: usize = 0;
        while p < self.hyper_composition.len()
            invariant
                self.wf(),
                is_perm(sigma@, self.n as nat),
                p <= self.hyper_composition.len(),
                out.len() == p,
                forall|q: int| 0 <= q < p ==> #[trigger] out@[q] == relabel(self.table()[q], sigma@),
                forall|q: int| 0 <= q < p ==> 0 < #[trigger] out@[q] && out@[q] < base(self.n as nat),
            decreases self.hyper_composition.len() - p,
        {
            let v = representation_permutation_subset(&self.hyper_composition[p], sigma);
            proof {
                lemma_relabel_in_carrier(self.table()[p as int], sigma@, self.n as nat);
            }
            out.push(v);
            p = p + 1;
        }
        HyperGroupoidMat { n: self.n, hyper_composition: out }
    }

    /// The isomorphic table obtained by relabelling every element x as `sigma[x]`: the
    /// product sigma(x) o sigma(y) becomes sigma applied to x o y.
    pub fn isomorphic_hypergroup_from_permutation(&self, sigma: &Vec<usize>) -> (r: HyperGroupoidMat)
        requires
            self.wf(),
            is_perm(sigma@, self.n as nat),
        ensures
            r.wf(),
            r.n == self.n,
            iso_image(self.table(), r.table(), sigma@, self.n as nat),
    {
        let n = self.n;
        let ghost t = self.table();
        proof {
            crate::codec::lemma_cube_bounds(n as nat);
        }
        let total: usize = (n * n) as usize;
        let mut out: Vec<u64> = Vec::new();
        let mut k: usize = 0;
        while k < total
            invariant
                k <= total,
                out.len() == k,
            decreases total - k,
        {
            out.push(0);
            k = k + 1;
        }
        let mut x: u64 = 0;
        while x < n
            invariant
                self.wf(),
                t == self.table(),
                n == self.n,
                is_perm(sigma@, n as nat),
                total == n * n,
                out.len() == total,
                x <= n,
                forall|a: int, b: int|
                    0 <= a < x && 0 <= b < n ==> #[trigger] entry(out@, n as nat, sigma@[a] as int, sigma@[b] as int)
                        == relabel(entry(t, n as nat, a, b), sigma@),
            decreases n - x,
        {
            let mut y: u64 = 0;
            while y < n
                invariant
                    self.wf(),
                    t == self.table(),
                    n == self.n,
                    is_perm(sigma@, n as nat),
                    total == n * n,
                    out.len() == total,
                    x < n,
                    y <= n,
                    forall|a: int, b: int|
                        0 <= a < x && 0 <= b < n ==> #[trigger] entry(out@, n as nat, sigma@[a] as int, sigma@[b] as int)
                            == relabel(entry(t, n as nat, a, b), sigma@),
                    forall|b: int|
                        0 <= b < y ==> #[trigger] entry(out@, n as nat, sigma@[x as int] as int, sigma@[b] as int)
                            == relabel(entry(t, n as nat, x as int, b), sigma@),
                decreases n - y,
            {
                let sx = sigma[x as usize] as u64;
                let sy = sigma[y as usize] as u64;
                let v = representation_permutation_subset(&self.get_entry(x, y), sigma);
                proof {
                    lemma_cell(n as nat, sx as int, sy as int);
                    crate::codec::lemma_cube_bounds(n as nat);
                    assert(sx * n <= sx * n + sy);
                }
                let pos: usize = (sx * n + sy) as usize;
                let ghost before = out@;
                out.set(pos, v);
                proof {
                    assert forall|a: int, b: int|
                        0 <= a < n && 0 <= b < n && (a != x || b != y) implies #[trigger] entry(out@, n as nat, sigma@[a] as int, sigma@[b] as int)
                            == entry(before, n as nat, sigma@[a] as int, sigma@[b] as int) by {
                        lemma_cell(n as nat, sigma@[a] as int, sigma@[b] as int);
                        if cell(n as nat, sigma@[a] as int, sigma@[b] as int) == pos {
                            lemma_cell_injective(n as nat, sigma@[a] as int, sigma@[b] as int, sx as int, sy as int);
                            if a < x {
                                assert(sigma@[a] != sigma@[x as int]);
                            } else if a > x {
                                assert(sigma@[x as int] != sigma@[a]);
                            } else if b < y {
                                assert(sigma@[b] != sigma@[y as int]);
                            } else if b > y {
                                assert(sigma@[y as int] != sigma@[b]);
                            }
                        }
                    }
                }
                y = y + 1;
            }
            x = x + 1;
        }
        let r = HyperGroupoidMat { n, hyper_composition: out };
        proof {
            assert forall|p: int| 0 <= p < out@.len() implies 0 < #[trigger] out@[p] && out@[p] < base(n as nat) by {
                lemma_cell_cover(n as nat, p);
                let a = p / (n as int);
                let b = p % (n as int);
                assert(hits(sigma@, a));
                let xa = choose|i: int| 0 <= i < sigma@.len() && #[trigger] sigma@[i] == a;
                assert(hits(sigma@, b));
                let xb = choose|i: int| 0 <= i < sigma@.len() && #[trigger] sigma@[i] == b;
                assert(entry(out@, n as nat, sigma@[xa] as int, sigma@[xb] as int) == relabel(entry(t, n as nat, xa, xb), sigma@));
                lemma_cell(n as nat, xa, xb);
                lemma_relabel_in_carrier(entry(t, n as nat, xa, xb), sigma@, n as nat);
            }
        }
        r
    }
}

} // verus!
