//! Hamming distance between tags and the tags at a given distance from one.
use crate::bits::{digits, low_digits};
use crate::codec::{lemma_cube_bounds, representing_hypergroupoid_u1024, table_of_tag, tag_of, valid_tag};
use crate::hs::{hypergroup, HyperGroupoidMat};
use crate::outside::{index_combinations, is_combination};
use crate::wide::{collect_n_digits_u1024, U1024};
use vstd::prelude::*;

verus! {

/// The number of positions at which two digit sequences of one length differ.
pub open spec fn diff_count(a: Seq<u64>, b: Seq<u64>) -> nat
    decreases a.len(),
{
    if a.len() == 0 {
        0
    } else {
        diff_count(a.drop_last(), b.drop_last()) + if a.last() != b.last() {
            1nat
        } else {
            0nat
        }
    }
}

/// A sequence differs from itself nowhere.
pub proof fn lemma_diff_self(a: Seq<u64>)
    ensures
        diff_count(a, a) == 0,
    decreases a.len(),
{
    if a.len() > 0 {
        lemma_diff_self(a.drop_last());
    }
}

/// The Hamming distance is symmetric.
pub proof fn lemma_diff_symmetric(a: Seq<u64>, b: Seq<u64>)
    requires
        a.len() == b.len(),
    ensures
        diff_count(a, b) == diff_count(b, a),
    decreases a.len(),
{
    if a.len() > 0 {
        lemma_diff_symmetric(a.drop_last(), b.drop_last());
    }
}

/// The distance that `distance_tags` computes is zero from a tag to itself and does not
/// depend on the order of the two tags.
pub proof fn lemma_distance_tags_laws(t1: u128, t2: u128, n: nat)
    ensures
        diff_count(digits(t1 as nat, n * n * n), digits(t1 as nat, n * n * n)) == 0,
        diff_count(digits(t1 as nat, n * n * n), digits(t2 as nat, n * n * n)) == diff_count(
            digits(t2 as nat, n * n * n),
            digits(t1 as nat, n * n * n),
        ),
{
    crate::bits::lemma_digits_value(t1 as nat, n * n * n);
    crate::bits::lemma_digits_value(t2 as nat, n * n * n);
    lemma_diff_self(digits(t1 as nat, n * n * n));
    lemma_diff_symmetric(digits(t1 as nat, n * n * n), digits(t2 as nat, n * n * n));
}

/// Counts the positions at which `a` and `b` differ.
fn count_differences(a: &Vec<u64>, b: &Vec<u64>) -> (r: usize)
    requires
        a.len() == b.len(),
    ensures
        r == diff_count(a@, b@),
        r <= a.len(),
{
    let mut c: usize = 0;
    let mut i: usize = 0;
    while i < a.len()
        invariant
            a.len() == b.len(),
            i <= a.len(),
            c <= i,
            c == diff_count(a@.take(i as int), b@.take(i as int)),
        decreases a.len() - i,
    {
        assert(a@.take(i as int + 1).drop_last() =~= a@.take(i as int));
        assert(b@.take(i as int + 1).drop_last() =~= b@.take(i as int));
        if a[i] != b[i] {
            c = c + 1;
        }
        i = i + 1;
    }
    assert(a@.take(i as int) =~= a@);
    assert(b@.take(i as int) =~= b@);
    c
}

/// The number of positions among the lowest n^3 bits at which two tags differ.
pub fn distance_tags(tag1: &u128, tag2: &u128, cardinality: &u64) -> (r: u64)
    requires
        *cardinality <= 64,
    ensures
        r == diff_count(
            digits(*tag1 as nat, (*cardinality * *cardinality * *cardinality) as nat),
            digits(*tag2 as nat, (*cardinality * *cardinality * *cardinality) as nat),
        ),
        r <= *cardinality * *cardinality * *cardinality,
        *tag1 == *tag2 ==> r == 0,
{
    proof {
        lemma_cube_bounds(*cardinality as nat);
    }
    let w = *cardinality * *cardinality * *cardinality;
    let a = low_digits(*tag1, w);
    let b = low_digits(*tag2, w);
    proof {
        crate::bits::lemma_digits_value(*tag1 as nat, w as nat);
        crate::bits::lemma_digits_value(*tag2 as nat, w as nat);
    }
    proof {
        lemma_diff_self(a@);
    }
    count_differences(&a, &b) as u64
}

/// The number of positions among the lowest n^3 bits at which two 1024-bit tags differ.
pub fn distance_tags_u1024(tag1: &U1024, tag2: &U1024, cardinality: &u64) -> (r: usize)
    requires
        *cardinality <= 10,
    ensures
        r == diff_count(
            digits(tag1.value(), (*cardinality * *cardinality * *cardinality) as nat),
            digits(tag2.value(), (*cardinality * *cardinality * *cardinality) as nat),
        ),
{
    proof {
        lemma_cube_bounds(*cardinality as nat);
        assert(*cardinality * *cardinality * *cardinality <= 1000) by (nonlinear_arith)
            requires
                *cardinality <= 10,
        ;
    }
    let w = *cardinality * *cardinality * *cardinality;
    let a = collect_n_digits_u1024(&w, tag1);
    let b = collect_n_digits_u1024(&w, tag2);
    proof {
        crate::bits::lemma_digits_value(tag1.value(), w as nat);
        crate::bits::lemma_digits_value(tag2.value(), w as nat);
    }
    count_differences(&a, &b)
}

impl HyperGroupoidMat {
    /// The Hamming distance between the tags of two tables on the same carrier.
    pub fn hamming_distance(&self, other: &HyperGroupoidMat) -> (r: usize)
        requires
            self.wf(),
            other.wf(),
            self.n == other.n,
            self.n <= 5,
        ensures
            r == diff_count(
                digits(tag_of(self.table(), self.n as nat), (self.n * self.n * self.n) as nat),
                digits(tag_of(other.table(), self.n as nat), (self.n * self.n * self.n) as nat),
            ),
    {
        let t1 = self.get_integer_tag();
        let t2 = other.get_integer_tag();
        proof {
            assert(self.n * self.n * self.n <= 125) by (nonlinear_arith)
                requires
                    self.n <= 5,
            ;
        }
        distance_tags(&t1, &t2, &self.n) as usize
    }

    /// The Hamming distance between the 1024-bit tags of two tables on the same carrier.
    pub fn hamming_distance_u1024(&self, other: &HyperGroupoidMat) -> (r: usize)
        requires
            self.wf(),
            other.wf(),
            self.n == other.n,
            self.n <= 10,
        ensures
            r == diff_count(
                digits(tag_of(self.table(), self.n as nat), (self.n * self.n * self.n) as nat),
                digits(tag_of(other.table(), self.n as nat), (self.n * self.n * self.n) as nat),
            ),
    {
        let t1 = self.get_integer_tag_u1024();
        let t2 = other.get_integer_tag_u1024();
        distance_tags_u1024(&t1, &t2, &self.n)
    }
}

/// The digits `d` (1024 of them, most significant first) with the bits at the
/// positions of `c` (counted from the least significant end) inverted.
pub open spec fn flip_positions(d: Seq<u64>, c: Seq<usize>) -> Seq<u64>
    decreases c.len(),
{
    if c.len() == 0 {
        d
    } else {
        let p = flip_positions(d, c.drop_last());
        p.update(1023 - c.last(), (1 - p[1023 - c.last()]) as u64)
    }
}

/// `v` lists the tags at Hamming distance `d` from `tag` within its lowest n^3 bits:
/// one for each choice of `d` positions, that tag with those bits inverted.
pub open spec fn is_circumference(tag: U1024, d: nat, n: nat, v: Seq<U1024>) -> bool {
    exists|cs: Seq<Seq<usize>>|
        #[trigger] cs.len() == v.len() && (forall|i: int|
            0 <= i < cs.len() ==> is_combination(#[trigger] cs[i], n * n * n, d)) && (forall|
            c: Seq<usize>,
        |
            #[trigger] is_combination(c, n * n * n, d) ==> exists|i: int| 0 <= i < cs.len() && #[trigger] cs[i] == c)
            && (forall|i: int, j: int| 0 <= i < j < cs.len() ==> cs[i] != cs[j]) && (forall|i: int|
            0 <= i < v.len() ==> #[trigger] v[i].digits_of() == flip_positions(tag.digits_of(), cs[i]))
}

/// The tags of `v` that encode hypergroups on `n` elements, in order.
pub open spec fn hypergroups_among(v: Seq<U1024>, n: nat) -> Seq<U1024>
    decreases v.len(),
{
    if v.len() == 0 {
        seq![]
    } else {
        let p = hypergroups_among(v.drop_last(), n);
        let t = v.last().value();
        if valid_tag(t, n) && hypergroup(table_of_tag(t, n), n) {
            p.push(v.last())
        } else {
            p
        }
    }
}

/// Inverts the bits of `tag` at the positions of `c`.
fn flip_all(tag: &U1024, c: &Vec<usize>) -> (r: U1024)
    requires
        forall|i: int| 0 <= i < c.len() ==> #[trigger] c@[i] < 1024,
    ensures
        r.digits_of() == flip_positions(tag.digits_of(), c@),
{
    let mut u = *tag;
    let mut k: usize = 0;
    while k < c.len()
        invariant
            forall|i: int| 0 <= i < c.len() ==> #[trigger] c@[i] < 1024,
            k <= c.len(),
            u.digits_of() == flip_positions(tag.digits_of(), c@.take(k as int)),
        decreases c.len() - k,
    {
        assert(c@.take(k as int + 1).drop_last() =~= c@.take(k as int));
        assert(c@[k as int] < 1024);
        u = u.flip_bit(c[k]);
        k = k + 1;
    }
    assert(c@.take(k as int) =~= c@);
    u
}

/// Every tag at Hamming distance `d` from `tag` within its lowest n^3 bits.
pub fn circumference_radius_d(tag: &U1024, d: &usize, cardinality: &u64) -> (r: Vec<U1024>)
    requires
        1 <= *cardinality <= 10,
    ensures
        is_circumference(*tag, *d as nat, *cardinality as nat, r@),
        *d == 0 ==> r@ == seq![*tag],
{
    proof {
        lemma_cube_bounds(*cardinality as nat);
        assert(*cardinality * *cardinality * *cardinality <= 1000) by (nonlinear_arith)
            requires
                *cardinality <= 10,
        ;
    }
    let w = (*cardinality * *cardinality * *cardinality) as usize;
    let combos = index_combinations(w, *d);
    let mut r: Vec<U1024> = Vec::new();
    let mut i: usize = 0;
    while i < combos.len()
        invariant
            w == *cardinality * *cardinality * *cardinality,
            w <= 1000,
            i <= combos.len(),
            r.len() == i,
            forall|k: int| 0 <= k < combos.len() ==> is_combination(#[trigger] combos@[k]@, w as nat, *d as nat),
            forall|k: int| 0 <= k < i ==> #[trigger] r@[k].digits_of() == flip_positions(tag.digits_of(), combos@[k]@),
        decreases combos.len() - i,
    {
        assert(is_combination(combos@[i as int]@, w as nat, *d as nat));
        let u = flip_all(tag, &combos[i]);
        r.push(u);
        i = i + 1;
    }
    proof {
        let cs = combos@.map_values(|c: Vec<usize>| c@);
        assert(cs.len() == r@.len());
        assert forall|c: Seq<usize>| #[trigger] is_combination(c, w as nat, *d as nat) implies exists|k: int| 0 <= k < cs.len() && #[trigger] cs[k] == c by {
            let k = choose|k: int| 0 <= k < combos.len() && #[trigger] combos@[k]@ == c;
            assert(cs[k] == c);
        }
        assert forall|a: int, b: int| 0 <= a < b < cs.len() implies cs[a] != cs[b] by {
            assert(combos@[a]@ != combos@[b]@);
        }
        assert forall|k: int| 0 <= k < cs.len() implies is_combination(#[trigger] cs[k], w as nat, *d as nat) by {
            assert(cs[k] == combos@[k]@);
        }
        assert forall|k: int| 0 <= k < r@.len() implies #[trigger] r@[k].digits_of() == flip_positions(tag.digits_of(), cs[k]) by {
            assert(cs[k] == combos@[k]@);
        }
        assert(is_circumference(*tag, *d as nat, *cardinality as nat, r@));
        if *d == 0 {
            let empty = Seq::<usize>::empty();
            assert(is_combination(empty, w as nat, 0));
            let k0 = choose|k: int| 0 <= k < combos.len() && #[trigger] combos@[k]@ == empty;
            if combos.len() > 1 {
                assert(is_combination(combos@[0]@, w as nat, 0));
                assert(is_combination(combos@[1]@, w as nat, 0));
                assert(combos@[0]@ =~= combos@[1]@);
            }
            assert(k0 == 0);
            assert(r@[k0].digits_of() == flip_positions(tag.digits_of(), empty));
            r@[0].lemma_digits_determine(*tag);
            assert(r@ =~= seq![*tag]);
        }
    }
    r
}

/// The tags at Hamming distance `d` from `tag` that encode hypergroups.
pub fn circumference_radius_d_filtered(tag: &U1024, d: &usize, cardinality: &u64) -> (r: Vec<U1024>)
    requires
        1 <= *cardinality <= 10,
    ensures
        exists|c: Seq<U1024>|
            is_circumference(*tag, *d as nat, *cardinality as nat, c) && r@ == #[trigger] hypergroups_among(c, *cardinality as nat),
{
    let all = circumference_radius_d(tag, d, cardinality);
    let mut r: Vec<U1024> = Vec::new();
    let mut i: usize = 0;
    while i < all.len()
        invariant
            1 <= *cardinality <= 10,
            i <= all.len(),
            r@ == hypergroups_among(all@.take(i as int), *cardinality as nat),
        decreases all.len() - i,
    {
        assert(all@.take(i as int + 1).drop_last() =~= all@.take(i as int));
        let x = all[i];
        if representing_hypergroupoid_u1024(&x, cardinality) {
            match HyperGroupoidMat::new_from_tag_u1024(&x, cardinality) {
                Ok(h) => {
                    if h.is_hypergroup() {
                        r.push(x);
                    }
                },
                Err(_) => {},
            }
        }
        i = i + 1;
    }
    assert(all@.take(i as int) =~= all@);
    r
}

/// The hypergroup tags that differ from `tag` in exactly one bit.
pub fn hg_in_circumference_radius_one(tag: &U1024, cardinality: &u64) -> (r: Vec<U1024>)
    requires
        1 <= *cardinality <= 10,
    ensures
        exists|c: Seq<U1024>|
            is_circumference(*tag, 1, *cardinality as nat, c) && r@ == #[trigger] hypergroups_among(c, *cardinality as nat),
{
    circumference_radius_d_filtered(tag, &1usize, cardinality)
}

} // verus!
