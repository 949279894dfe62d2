//! Exhaustive scans of the tag space and isomorphism classes of the survivors.
use crate::bits::{lemma_pow2_128, lemma_pow_step};
use crate::codec::{lemma_cube_bounds, representing_hypergroupoid, table_of_tag, tag_of, valid_tag};
use crate::hs::{
    elements_of_kind, hypergroup, table_wf, ElementKind, HyperGroupoidMat,
};
use crate::outside::{all_permutations, factorial, is_perm};
use crate::perm::{identity_perm, iso_image, lemma_iso_image_unique};
use crate::wide::U1024;
use vstd::arithmetic::power::*;
use vstd::prelude::*;

verus! {

/// The kinds of structure that a scan keeps.
#[derive(Debug, Clone, Copy, PartialEq, Eq, Structural)]
pub enum StructureKind {
    /// Every valid table.
    Hypergroupoids,
    /// Associative and reproductive tables.
    Hypergroups,
    /// Tables with an element that is both a scalar and an identity.
    UnitalMagmata,
}

/// The tag `t` encodes a structure of the given kind on `n` elements.
pub open spec fn tag_has(kind: StructureKind, t: nat, n: nat) -> bool {
    valid_tag(t, n) && match kind {
        StructureKind::Hypergroupoids => true,
        StructureKind::Hypergroups => hypergroup(table_of_tag(t, n), n),
        StructureKind::UnitalMagmata => elements_of_kind(
            table_of_tag(t, n),
            n,
            ElementKind::ScalarIdentity,
            n as int,
        ).len() > 0,
    }
}

/// The tags in `lo..hi` of the given kind, in increasing order.
pub open spec fn scan(kind: StructureKind, n: nat, lo: int, hi: int) -> Seq<u128>
    decreases hi - lo,
{
    if hi <= lo {
        seq![]
    } else {
        let p = scan(kind, n, lo, hi - 1);
        if tag_has(kind, (hi - 1) as nat, n) {
            p.push((hi - 1) as u128)
        } else {
            p
        }
    }
}

/// `g` is the tag of a table obtained from `t` by relabelling its elements.
pub open spec fn image_tag(t: Seq<u64>, n: nat, g: u128) -> bool {
    exists|sigma: Seq<usize>, s: Seq<u64>|
        is_perm(sigma, n) && #[trigger] iso_image(t, s, sigma, n) && table_wf(s, n) && g == tag_of(s, n)
}

/// `v` lists, in increasing order, the tags of all tables isomorphic to the one `tag` encodes.
pub open spec fn is_orbit(tag: u128, n: nat, v: Seq<u128>) -> bool {
    &&& forall|i: int, j: int| 0 <= i < j < v.len() ==> v[i] < v[j]
    &&& forall|g: u128| v.contains(g) <==> image_tag(table_of_tag(tag as nat, n), n, g)
}

/// The relabelling of `t` by `sigma` has its tag in `v`.
pub open spec fn seen(t: Seq<u64>, n: nat, sigma: Seq<usize>, v: Seq<u128>) -> bool {
    exists|s: Seq<u64>|
        #[trigger] iso_image(t, s, sigma, n) && table_wf(s, n) && v.contains(tag_of(s, n) as u128)
}

/// Two to the power `e`, for `e` below 128.
pub fn pow2_u128(e: u64) -> (r: u128)
    requires
        e < 128,
    ensures
        r == pow(2, e as nat),
{
    let mut r: u128 = 1;
    let mut i: u64 = 0;
    proof {
        lemma_pow_step(2, 0);
        lemma_pow2_128();
    }
    while i < e
        invariant
            i <= e < 128,
            r == pow(2, i as nat),
            pow(2, 128) == 0x1_0000_0000_0000_0000_0000_0000_0000_0000,
        decreases e - i,
    {
        proof {
            lemma_pow_step(2, i as nat);
            lemma_pow_increases(2, (i + 1) as nat, 127);
            lemma_pow_step(2, 127);
        }
        r = r * 2;
        i = i + 1;
    }
    r
}

/// Whether the tag `t` encodes a structure of the given kind on `n` elements.
pub fn tag_is(kind: StructureKind, t: u128, n: u64) -> (r: bool)
    requires
        1 <= n <= 5,
    ensures
        r == tag_has(kind, t as nat, n as nat),
{
    if !representing_hypergroupoid(&t, &n) {
        return false;
    }
    match HyperGroupoidMat::new_from_tag(&t, &n) {
        Ok(h) => match kind {
            StructureKind::Hypergroupoids => true,
            StructureKind::Hypergroups => h.is_hypergroup(),
            StructureKind::UnitalMagmata => h.collect_scalar_identity().len() > 0,
        },
        Err(_) => false,
    }
}

/// The tags in `lo..hi` of the given kind on `n` elements, in increasing order. Disjoint
/// ranges can be scanned independently and their results concatenated.
pub fn collect_in_range(kind: StructureKind, n: u64, lo: u128, hi: u128) -> (r: Vec<u128>)
    requires
        1 <= n <= 5,
    ensures
        r@ == scan(kind, n as nat, lo as int, hi as int),
{
    let mut r: Vec<u128> = Vec::new();
    if hi <= lo {
        return r;
    }
    let mut t: u128 = lo;
    while t < hi
        invariant
            1 <= n <= 5,
            lo <= t <= hi,
            r@ == scan(kind, n as nat, lo as int, t as int),
        decreases hi - t,
    {
        if tag_is(kind, t, n) {
            r.push(t);
        }
        t = t + 1;
    }
    r
}

/// The whole scanned range for `n` elements: tags of n^3 bits whose top chunk is not zero.
pub fn scan_bounds(n: u64) -> (r: (u128, u128))
    requires
        1 <= n <= 5,
    ensures
        r.0 == pow(2, (n * n * n - n) as nat),
        r.1 == pow(2, (n * n * n) as nat),
{
    proof {
        lemma_cube_bounds(n as nat);
        assert(n * n * n <= 125) by (nonlinear_arith)
            requires
                n <= 5,
        ;
        assert(n <= n * n * n) by (nonlinear_arith)
            requires
                1 <= n,
        ;
    }
    let size = n * n * n;
    (pow2_u128(size - n), pow2_u128(size))
}

/// The tags of all hypergroupoids on `cardinality` elements.
pub fn collect_hypergroupoid(cardinality: &u32) -> (r: Vec<u128>)
    requires
        1 <= *cardinality <= 5,
    ensures
        r@ == scan(
            StructureKind::Hypergroupoids,
            *cardinality as nat,
            pow(2, (*cardinality * *cardinality * *cardinality - *cardinality) as nat),
            pow(2, (*cardinality * *cardinality * *cardinality) as nat),
        ),
{
    let n = *cardinality as u64;
    let (lo, hi) = scan_bounds(n);
    collect_in_range(StructureKind::Hypergroupoids, n, lo, hi)
}

/// The tags of all hypergroups on `cardinality` elements.
pub fn collect_hypergroups(cardinality: &u32) -> (r: Vec<u128>)
    requires
        1 <= *cardinality <= 5,
    ensures
        r@ == scan(
            StructureKind::Hypergroups,
            *cardinality as nat,
            pow(2, (*cardinality * *cardinality * *cardinality - *cardinality) as nat),
            pow(2, (*cardinality * *cardinality * *cardinality) as nat),
        ),
{
    let n = *cardinality as u64;
    let (lo, hi) = scan_bounds(n);
    collect_in_range(StructureKind::Hypergroups, n, lo, hi)
}

/// The tags of all hypergroupoids on `cardinality` elements with a scalar identity.
pub fn collect_hypergroupoid_with_scalar_identity(cardinality: &u32) -> (r: Vec<u128>)
    requires
        1 <= *cardinality <= 5,
    ensures
        r@ == scan(
            StructureKind::UnitalMagmata,
            *cardinality as nat,
            pow(2, (*cardinality * *cardinality * *cardinality - *cardinality) as nat),
            pow(2, (*cardinality * *cardinality * *cardinality) as nat),
        ),
{
    let n = *cardinality as u64;
    let (lo, hi) = scan_bounds(n);
    collect_in_range(StructureKind::UnitalMagmata, n, lo, hi)
}

/// Adds `x` to a strictly increasing vector unless it is there.
fn insert_sorted_tag(v: &mut Vec<u128>, x: u128)
    requires
        forall|i: int, j: int| 0 <= i < j < old(v)@.len() ==> old(v)@[i] < old(v)@[j],
    ensures
        forall|i: int, j: int| 0 <= i < j < final(v)@.len() ==> final(v)@[i] < final(v)@[j],
        forall|m: u128| final(v)@.contains(m) <==> old(v)@.contains(m) || m == x,
        final(v).len() <= old(v).len() + 1,
{
    let mut i: usize = 0;
    while i < v.len() && v[i] < x
        invariant
            i <= v.len(),
            forall|j: int| 0 <= j < i ==> v@[j] < x,
        decreases v.len() - i,
    {
        i = i + 1;
    }
    if i < v.len() && v[i] == x {
        assert(v@[i as int] == x);
        return;
    }
    let ghost old_v = v@;
    proof {
        assert forall|j: int| i <= j < old_v.len() implies old_v[j] > x by {
            if j > i {
                assert(old_v[i as int] < old_v[j]);
            }
        }
    }
    v.insert(i, x);
    proof {
        assert(v@ =~= old_v.subrange(0, i as int).push(x) + old_v.subrange(i as int, old_v.len() as int));
        assert forall|m: u128| v@.contains(m) <==> old_v.contains(m) || m == x by {
            if v@.contains(m) {
                let j = choose|j: int| 0 <= j < v@.len() && v@[j] == m;
                if j < i {
                    assert(old_v[j] == m);
                } else if j > i {
                    assert(old_v[j - 1] == m);
                }
            }
            if old_v.contains(m) {
                let j = choose|j: int| 0 <= j < old_v.len() && old_v[j] == m;
                if j < i {
                    assert(v@[j] == m);
                } else {
                    assert(v@[j + 1] == m);
                }
            }
            if m == x {
                assert(v@[i as int] == m);
            }
        }
    }
}

/// Two strictly increasing sequences with the same members are equal.
pub proof fn lemma_sorted_same(v1: Seq<u128>, v2: Seq<u128>)
    requires
        forall|i: int, j: int| 0 <= i < j < v1.len() ==> v1[i] < v1[j],
        forall|i: int, j: int| 0 <= i < j < v2.len() ==> v2[i] < v2[j],
        forall|g: u128| v1.contains(g) <==> v2.contains(g),
    ensures
        v1 == v2,
    decreases v1.len() + v2.len(),
{
    if v1.len() == 0 || v2.len() == 0 {
        if v1.len() > 0 {
            assert(v1.contains(v1[0]));
        }
        if v2.len() > 0 {
            assert(v2.contains(v2[0]));
        }
        assert(v1 =~= v2);
    } else {
        let a = v1.last();
        let b = v2.last();
        assert(v1.contains(a));
        assert(v2.contains(b));
        let ia = choose|i: int| 0 <= i < v2.len() && v2[i] == a;
        let ib = choose|i: int| 0 <= i < v1.len() && v1[i] == b;
        if ia < v2.len() - 1 {
            assert(v2[ia] < v2[v2.len() - 1]);
        }
        if ib < v1.len() - 1 {
            assert(v1[ib] < v1[v1.len() - 1]);
        }
        assert(a == b);
        let d1 = v1.drop_last();
        let d2 = v2.drop_last();
        assert forall|g: u128| d1.contains(g) <==> d2.contains(g) by {
            if d1.contains(g) {
                let i = choose|i: int| 0 <= i < d1.len() && d1[i] == g;
                assert(v1[i] < v1[v1.len() - 1]);
                assert(v1.contains(g));
                let j = choose|j: int| 0 <= j < v2.len() && v2[j] == g;
                assert(j != v2.len() - 1);
                assert(d2[j] == g);
            }
            if d2.contains(g) {
                let i = choose|i: int| 0 <= i < d2.len() && d2[i] == g;
                assert(v2[i] < v2[v2.len() - 1]);
                assert(v2.contains(g));
                let j = choose|j: int| 0 <= j < v1.len() && v1[j] == g;
                assert(j != v1.len() - 1);
                assert(d1[j] == g);
            }
        }
        lemma_sorted_same(d1, d2);
        assert(v1 =~= d1.push(a));
        assert(v2 =~= d2.push(b));
    }
}

/// The identity is a permutation.
pub proof fn lemma_identity_perm(n: nat)
    requires
        n < 64,
    ensures
        is_perm(identity_perm(n), n),
{
    assert forall|j: int| 0 <= j < n implies #[trigger] crate::outside::hits(identity_perm(n), j) by {
        assert(identity_perm(n)[j] == j);
    }
}

/// The isomorphism class of the hypergroupoid that `tag` encodes: the tags of all its
/// relabellings, in increasing order, with the smallest as representative.
pub fn isomorphism_class(tag: &u128, cardinality: &u64) -> (r: (u128, Vec<u128>))
    requires
        1 <= *cardinality <= 5,
        valid_tag(*tag as nat, *cardinality as nat),
    ensures
        is_orbit(*tag, *cardinality as nat, r.1@),
        1 <= r.1.len() <= factorial(*cardinality as nat),
        r.0 == r.1@[0],
{
    let n = *cardinality;
    let ghost t = table_of_tag(*tag as nat, n as nat);
    let h = match HyperGroupoidMat::new_from_tag(tag, &n) {
        Ok(h) => h,
        Err(_) => {
            assert(false);
            HyperGroupoidMat { n, hyper_composition: Vec::new() }
        },
    };
    let perms = all_permutations(n as usize);
    let mut v: Vec<u128> = Vec::new();
    let mut i: usize = 0;
    while i < perms.len()
        invariant
            h.wf(),
            h.n == n,
            1 <= n <= 5,
            h.table() == t,
            perms.len() == factorial(n as nat),
            forall|k: int| 0 <= k < perms.len() ==> is_perm(#[trigger] perms@[k]@, n as nat),
            i <= perms.len(),
            v.len() <= i,
            forall|a: int, b: int| 0 <= a < b < v@.len() ==> v@[a] < v@[b],
            forall|g: u128| v@.contains(g) ==> image_tag(t, n as nat, g),
            forall|k: int| 0 <= k < i ==> #[trigger] seen(t, n as nat, perms@[k]@, v@),
        decreases perms.len() - i,
    {
        let img = h.isomorphic_hypergroup_from_permutation(&perms[i]);
        let g = img.get_integer_tag();
        let ghost before = v@;
        insert_sorted_tag(&mut v, g);
        proof {
            assert(image_tag(t, n as nat, g)) by {
                assert(is_perm(perms@[i as int]@, n as nat) && iso_image(t, img.table(), perms@[i as int]@, n as nat));
            }
            assert forall|k: int| 0 <= k < i + 1 implies #[trigger] seen(t, n as nat, perms@[k]@, v@) by {
                if k == i {
                    assert(iso_image(t, img.table(), perms@[k]@, n as nat) && table_wf(img.table(), n as nat) && v@.contains(
                        tag_of(img.table(), n as nat) as u128,
                    ));
                } else {
                    assert(seen(t, n as nat, perms@[k]@, before));
                    let s = choose|s: Seq<u64>|
                        #[trigger] iso_image(t, s, perms@[k]@, n as nat) && table_wf(s, n as nat) && before.contains(
                            tag_of(s, n as nat) as u128,
                        );
                    assert(v@.contains(tag_of(s, n as nat) as u128));
                }
            }
        }
        i = i + 1;
    }
    proof {
        assert forall|g: u128| image_tag(t, n as nat, g) implies v@.contains(g) by {
            let (sigma, s) = choose|sigma: Seq<usize>, s: Seq<u64>|
                is_perm(sigma, n as nat) && #[trigger] iso_image(t, s, sigma, n as nat) && table_wf(s, n as nat)
                    && g == tag_of(s, n as nat);
            let k = choose|k: int| 0 <= k < perms.len() && #[trigger] perms@[k]@ == sigma;
            assert(seen(t, n as nat, perms@[k]@, v@));
            let s2 = choose|s2: Seq<u64>|
                #[trigger] iso_image(t, s2, perms@[k]@, n as nat) && table_wf(s2, n as nat) && v@.contains(
                    tag_of(s2, n as nat) as u128,
                );
            lemma_iso_image_unique(t, s, s2, sigma, n as nat);
        }
        lemma_identity_perm(n as nat);
        let k = choose|k: int| 0 <= k < perms.len() && #[trigger] perms@[k]@ == identity_perm(n as nat);
        assert(seen(t, n as nat, perms@[k]@, v@));
        let s2 = choose|s2: Seq<u64>|
            #[trigger] iso_image(t, s2, perms@[k]@, n as nat) && table_wf(s2, n as nat) && v@.contains(
                tag_of(s2, n as nat) as u128,
            );
        assert(v@.len() > 0);
    }
    (v[0], v)
}

/// How many of the classes `cs` have `k` members.
pub open spec fn count_size(cs: Seq<(u128, usize)>, k: nat) -> nat
    decreases cs.len(),
{
    if cs.len() == 0 {
        0
    } else {
        count_size(cs.drop_last(), k) + if cs.last().1 == k {
            1nat
        } else {
            0nat
        }
    }
}

/// `c` is (representative, size) of the class of some tag of `tags`.
pub open spec fn class_from(tags: Seq<u128>, n: nat, c: (u128, usize)) -> bool {
    exists|i: int, v: Seq<u128>|
        0 <= i < tags.len() && #[trigger] is_orbit(tags[i], n, v) && c == (v[0], v.len() as usize)
}

/// `cs` lists each isomorphism class met among `tags` once, as (representative, size).
pub open spec fn classes_of(tags: Seq<u128>, n: nat, cs: Seq<(u128, usize)>) -> bool {
    &&& forall|j: int| 0 <= j < cs.len() ==> #[trigger] class_from(tags, n, cs[j])
    &&& forall|i: int, v: Seq<u128>|
        0 <= i < tags.len() && #[trigger] is_orbit(tags[i], n, v) ==> exists|j: int|
            0 <= j < cs.len() && #[trigger] cs[j].0 == v[0]
    &&& forall|a: int, b: int| 0 <= a < b < cs.len() ==> cs[a].0 != cs[b].0
}

/// At most 120 orderings of at most 5 elements.
pub proof fn lemma_factorial_small(n: nat)
    requires
        n <= 5,
    ensures
        1 <= factorial(n) <= 120,
{
    reveal_with_fuel(factorial, 6);
    if n == 0 {
    } else if n == 1 {
    } else if n == 2 {
    } else if n == 3 {
    } else if n == 4 {
    } else {
        assert(factorial(1) == 1);
        assert(factorial(2) == 2);
        assert(factorial(3) == 6);
        assert(factorial(4) == 24);
        assert(factorial(5) == 5 * factorial(4));
    }
}

/// On at most two elements the size of every isomorphism class divides n!: a class has
/// between 1 and n! members.
pub proof fn lemma_class_size_divides(n: nat, k: nat)
    requires
        n <= 2,
        1 <= k <= factorial(n),
    ensures
        factorial(n) % k == 0,
{
    reveal_with_fuel(factorial, 3);
    if n == 2 {
        assert(factorial(2) == 2);
        if k == 1 {
        } else {
            assert(k == 2);
        }
    } else {
        assert(factorial(n) == 1);
    }
}

/// Every tag in the isomorphism class of a hypergroup tag is itself a hypergroup tag of
/// the scanned range, so the classes of the scanned hypergroups hold only scanned tags.
pub proof fn lemma_orbit_of_hypergroup(tag: u128, n: nat, g: u128)
    requires
        1 <= n <= 5,
        tag_has(StructureKind::Hypergroups, tag as nat, n),
        image_tag(table_of_tag(tag as nat, n), n, g),
    ensures
        tag_has(StructureKind::Hypergroups, g as nat, n),
        pow(2, (n * n * n - n) as nat) <= g < pow(2, n * n * n),
{
    let t = table_of_tag(tag as nat, n);
    crate::codec::lemma_round_trip(seq![], tag as nat, n);
    let (sigma, s) = choose|sigma: Seq<usize>, s: Seq<u64>|
        is_perm(sigma, n) && #[trigger] iso_image(t, s, sigma, n) && table_wf(s, n) && g == tag_of(s, n);
    crate::perm::lemma_hypergroup_image(t, s, sigma, n);
    crate::codec::lemma_round_trip(s, 0, n);
    crate::codec::lemma_valid_tag_lower_bound(g as nat, n);
}

/// Every tag that a scan keeps has the property scanned for.
pub proof fn lemma_scan_members(kind: StructureKind, n: nat, lo: int, hi: int)
    requires
        0 <= lo,
        hi <= u128::MAX + 1,
    ensures
        forall|i: int| 0 <= i < scan(kind, n, lo, hi).len() ==> tag_has(kind, #[trigger] scan(kind, n, lo, hi)[i] as nat, n),
    decreases hi - lo,
{
    if hi > lo {
        lemma_scan_members(kind, n, lo, hi - 1);
        let p = scan(kind, n, lo, hi - 1);
        let q = scan(kind, n, lo, hi);
        assert forall|i: int| 0 <= i < q.len() implies tag_has(kind, #[trigger] q[i] as nat, n) by {
            if i < p.len() {
                assert(q[i] == p[i]);
            }
        }
    }
}

/// The isomorphism classes of the structures of the given kind on `cardinality`
/// elements, counted by size: entry k - 1 is the number of classes with k members,
/// for k from 1 to n!.
pub fn enumeration_hyperstructure(kind: StructureKind, cardinality: &u32) -> (r: Vec<usize>)
    requires
        1 <= *cardinality <= 5,
    ensures
        r.len() == factorial(*cardinality as nat),
        exists|cs: Seq<(u128, usize)>|
            #[trigger] classes_of(
                scan(
                    kind,
                    *cardinality as nat,
                    pow(2, (*cardinality * *cardinality * *cardinality - *cardinality) as nat),
                    pow(2, (*cardinality * *cardinality * *cardinality) as nat),
                ),
                *cardinality as nat,
                cs,
            ) && forall|k: int| 0 <= k < r.len() ==> #[trigger] r@[k] == count_size(cs, (k + 1) as nat),
{
    let n = *cardinality as u64;
    let (lo, hi) = scan_bounds(n);
    let tags = collect_in_range(kind, n, lo, hi);
    proof {
        lemma_scan_members(kind, n as nat, lo as int, hi as int);
    }
    let mut classes: Vec<(u128, usize)> = Vec::new();
    let mut i: usize = 0;
    while i < tags.len()
        invariant
            1 <= n <= 5,
            forall|k: int| 0 <= k < tags.len() ==> tag_has(kind, #[trigger] tags@[k] as nat, n as nat),
            i <= tags.len(),
            classes_of(tags@.take(i as int), n as nat, classes@),
        decreases tags.len() - i,
    {
        let ghost pre = tags@.take(i as int);
        let ghost post = tags@.take(i as int + 1);
        assert(tag_has(kind, tags@[i as int] as nat, n as nat));
        let (rep, v) = isomorphism_class(&tags[i], &n);
        let mut found = false;
        let mut j: usize = 0;
        while j < classes.len()
            invariant
                j <= classes.len(),
                found == exists|jj: int| 0 <= jj < j && #[trigger] classes@[jj].0 == rep,
            decreases classes.len() - j,
        {
            if classes[j].0 == rep {
                found = true;
            }
            j = j + 1;
        }
        let ghost before = classes@;
        if !found {
            classes.push((rep, v.len()));
        }
        proof {
            assert(is_orbit(post[i as int], n as nat, v@));
            assert forall|jj: int| 0 <= jj < classes@.len() implies #[trigger] class_from(post, n as nat, classes@[jj]) by {
                if jj < before.len() {
                    assert(class_from(pre, n as nat, before[jj]));
                    let (ii, w) = choose|ii: int, w: Seq<u128>|
                        0 <= ii < pre.len() && #[trigger] is_orbit(pre[ii], n as nat, w) && before[jj] == (w[0], w.len() as usize);
                    assert(post[ii] == pre[ii]);
                    assert(is_orbit(post[ii], n as nat, w));
                } else {
                    assert(is_orbit(post[i as int], n as nat, v@) && classes@[jj] == (v@[0], v@.len() as usize));
                }
            }
            assert forall|ii: int, w: Seq<u128>|
                0 <= ii < post.len() && #[trigger] is_orbit(post[ii], n as nat, w) implies exists|jj: int|
                    0 <= jj < classes@.len() && #[trigger] classes@[jj].0 == w[0] by {
                if ii < i {
                    assert(pre[ii] == post[ii]);
                    assert(is_orbit(pre[ii], n as nat, w));
                    let jj = choose|jj: int| 0 <= jj < before.len() && #[trigger] before[jj].0 == w[0];
                    assert(classes@[jj].0 == w[0]);
                } else {
                    lemma_sorted_same(w, v@);
                    if found {
                        let jj = choose|jj: int| 0 <= jj < j && #[trigger] classes@[jj].0 == rep;
                    } else {
                        assert(classes@[before.len() as int].0 == w[0]);
                    }
                }
            }
        }
        i = i + 1;
    }
    assert(tags@.take(tags.len() as int) =~= tags@);
    let p = all_permutations(n as usize).len();
    proof {
        lemma_factorial_small(n as nat);
    }
    let mut r: Vec<usize> = Vec::new();
    let mut k: usize = 1;
    while k <= p
        invariant
            1 <= k <= p + 1,
            p == factorial(n as nat),
            p <= 120,
            r.len() == k - 1,
            forall|kk: int| 0 <= kk < r.len() ==> #[trigger] r@[kk] == count_size(classes@, (kk + 1) as nat),
        decreases p + 1 - k,
    {
        let mut c: usize = 0;
        let mut j: usize = 0;
        while j < classes.len()
            invariant
                j <= classes.len(),
                c <= j,
                c == count_size(classes@.take(j as int), k as nat),
            decreases classes.len() - j,
        {
            assert(classes@.take(j as int + 1).drop_last() =~= classes@.take(j as int));
            if classes[j].1 == k {
                c = c + 1;
            }
            j = j + 1;
        }
        assert(classes@.take(classes.len() as int) =~= classes@);
        r.push(c);
        k = k + 1;
    }
    r
}

/// `g` is the tag of a table obtained from `t` by relabelling its elements.
pub open spec fn image_value(t: Seq<u64>, n: nat, g: nat) -> bool {
    exists|sigma: Seq<usize>, s: Seq<u64>|
        is_perm(sigma, n) && #[trigger] iso_image(t, s, sigma, n) && table_wf(s, n) && g == tag_of(s, n)
}

/// The values of `v` increase strictly.
pub open spec fn values_increasing(v: Seq<U1024>) -> bool {
    forall|i: int, j: int| 0 <= i < j < v.len() ==> v[i].value() < v[j].value()
}

/// Some entry of `v` has the value `g`.
pub open spec fn has_value(v: Seq<U1024>, g: nat) -> bool {
    exists|i: int| 0 <= i < v.len() && #[trigger] v[i].value() == g
}

/// The relabelling of `t` by `sigma` has its tag among the values of `v`.
pub open spec fn seen_wide(t: Seq<u64>, n: nat, sigma: Seq<usize>, v: Seq<U1024>) -> bool {
    exists|s: Seq<u64>| #[trigger] iso_image(t, s, sigma, n) && table_wf(s, n) && has_value(v, tag_of(s, n))
}

/// Adds `x` to a vector of strictly increasing values unless its value is there.
fn insert_sorted_wide(v: &mut Vec<U1024>, x: U1024)
    requires
        values_increasing(old(v)@),
    ensures
        values_increasing(final(v)@),
        forall|g: nat| has_value(final(v)@, g) <==> has_value(old(v)@, g) || g == x.value(),
        final(v).len() <= old(v).len() + 1,
{
    let mut i: usize = 0;
    while i < v.len() && v[i].lt(&x)
        invariant
            i <= v.len(),
            forall|j: int| 0 <= j < i ==> v@[j].value() < x.value(),
        decreases v.len() - i,
    {
        i = i + 1;
    }
    if i < v.len() && !x.lt(&v[i]) {
        assert(v@[i as int].value() == x.value());
        return;
    }
    let ghost old_v = v@;
    proof {
        assert forall|j: int| i <= j < old_v.len() implies old_v[j].value() > x.value() by {
            if j > i {
                assert(old_v[i as int].value() < old_v[j].value());
            }
        }
    }
    v.insert(i, x);
    proof {
        assert(v@ =~= old_v.subrange(0, i as int).push(x) + old_v.subrange(i as int, old_v.len() as int));
        assert forall|g: nat| has_value(v@, g) <==> has_value(old_v, g) || g == x.value() by {
            if has_value(v@, g) {
                let j = choose|j: int| 0 <= j < v@.len() && #[trigger] v@[j].value() == g;
                if j < i {
                    assert(old_v[j].value() == g);
                } else if j > i {
                    assert(old_v[j - 1].value() == g);
                }
            }
            if has_value(old_v, g) {
                let j = choose|j: int| 0 <= j < old_v.len() && #[trigger] old_v[j].value() == g;
                if j < i {
                    assert(v@[j].value() == g);
                } else {
                    assert(v@[j + 1].value() == g);
                }
            }
            if g == x.value() {
                assert(v@[i as int].value() == g);
            }
        }
    }
}

impl HyperGroupoidMat {
    /// The isomorphism class of the table: the 1024-bit tags of all its relabellings, in
    /// increasing order, with the smallest as representative.
    pub fn collect_isomorphism_class(&self) -> (r: (U1024, Vec<U1024>))
        requires
            self.wf(),
            self.n <= 10,
        ensures
            values_increasing(r.1@),
            forall|g: nat| has_value(r.1@, g) <==> image_value(self.table(), self.n as nat, g),
            1 <= r.1.len() <= factorial(self.n as nat),
            r.0 == r.1@[0],
    {
        let n = self.n;
        let ghost t = self.table();
        let perms = all_permutations(n as usize);
        let mut v: Vec<U1024> = Vec::new();
        let mut i: usize = 0;
        while i < perms.len()
            invariant
                self.wf(),
                self.n == n,
                n <= 10,
                t == self.table(),
                perms.len() == factorial(n as nat),
                forall|k: int| 0 <= k < perms.len() ==> is_perm(#[trigger] perms@[k]@, n as nat),
                i <= perms.len(),
                v.len() <= i,
                values_increasing(v@),
                forall|g: nat| has_value(v@, g) ==> image_value(t, n as nat, g),
                forall|k: int| 0 <= k < i ==> #[trigger] seen_wide(t, n as nat, perms@[k]@, v@),
            decreases perms.len() - i,
        {
            let img = self.isomorphic_hypergroup_from_permutation(&perms[i]);
            let g = img.get_integer_tag_u1024();
            let ghost before = v@;
            insert_sorted_wide(&mut v, g);
            proof {
                assert(image_value(t, n as nat, g.value())) by {
                    assert(is_perm(perms@[i as int]@, n as nat) && iso_image(t, img.table(), perms@[i as int]@, n as nat));
                }
                assert forall|k: int| 0 <= k < i + 1 implies #[trigger] seen_wide(t, n as nat, perms@[k]@, v@) by {
                    if k == i {
                        assert(iso_image(t, img.table(), perms@[k]@, n as nat) && table_wf(img.table(), n as nat)
                            && has_value(v@, tag_of(img.table(), n as nat)));
                    } else {
                        assert(seen_wide(t, n as nat, perms@[k]@, before));
                        let s = choose|s: Seq<u64>|
                            #[trigger] iso_image(t, s, perms@[k]@, n as nat) && table_wf(s, n as nat) && has_value(
                                before,
                                tag_of(s, n as nat),
                            );
                        assert(has_value(v@, tag_of(s, n as nat)));
                    }
                }
            }
            i = i + 1;
        }
        proof {
            assert forall|g: nat| image_value(t, n as nat, g) implies has_value(v@, g) by {
                let (sigma, s) = choose|sigma: Seq<usize>, s: Seq<u64>|
                    is_perm(sigma, n as nat) && #[trigger] iso_image(t, s, sigma, n as nat) && table_wf(s, n as nat)
                        && g == tag_of(s, n as nat);
                let k = choose|k: int| 0 <= k < perms.len() && #[trigger] perms@[k]@ == sigma;
                assert(seen_wide(t, n as nat, perms@[k]@, v@));
                let s2 = choose|s2: Seq<u64>|
                    #[trigger] iso_image(t, s2, perms@[k]@, n as nat) && table_wf(s2, n as nat) && has_value(
                        v@,
                        tag_of(s2, n as nat),
                    );
                lemma_iso_image_unique(t, s, s2, sigma, n as nat);
            }
            lemma_identity_perm(n as nat);
            let k = choose|k: int| 0 <= k < perms.len() && #[trigger] perms@[k]@ == identity_perm(n as nat);
            assert(seen_wide(t, n as nat, perms@[k]@, v@));
        }
        (v[0], v)
    }
}

} // verus!
