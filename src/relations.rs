//! Relations on element sets, held as explicit pairs of singleton masks.
use crate::error::HsError;
use crate::hs::singleton;
use vstd::prelude::*;

verus! {

/// A relation from the elements of `a` to the elements of `b`; `rel` lists the related
/// pairs as (mask of {x}, mask of {y}).
#[derive(Debug)]
pub struct Relation {
    pub a: Vec<u64>,
    pub b: Vec<u64>,
    pub rel: Vec<(u64, u64)>,
}

/// Whether `x` occurs in `v`.
pub fn vec_contains(v: &Vec<u64>, x: u64) -> (r: bool)
    ensures
        r == v@.contains(x),
{
    let mut i: usize = 0;
    while i < v.len()
        invariant
            i <= v.len(),
            forall|j: int| 0 <= j < i ==> v@[j] != x,
        decreases v.len() - i,
    {
        if v[i] == x {
            assert(v@[i as int] == x);
            return true;
        }
        i = i + 1;
    }
    false
}

/// Whether the pair `p` occurs in `v`.
pub fn pairs_contain(v: &Vec<(u64, u64)>, p: (u64, u64)) -> (r: bool)
    ensures
        r == v@.contains(p),
{
    let mut i: usize = 0;
    while i < v.len()
        invariant
            i <= v.len(),
            forall|j: int| 0 <= j < i ==> v@[j] != p,
        decreases v.len() - i,
    {
        if v[i].0 == p.0 && v[i].1 == p.1 {
            assert(v@[i as int] == p);
            return true;
        }
        i = i + 1;
    }
    false
}

/// `p` comes before `q` in lexicographic order.
pub open spec fn pair_lt(p: (u64, u64), q: (u64, u64)) -> bool {
    p.0 < q.0 || (p.0 == q.0 && p.1 < q.1)
}

/// The pairs of `s` increase strictly in lexicographic order.
pub open spec fn pairs_sorted(s: Seq<(u64, u64)>) -> bool {
    forall|i: int, j: int| 0 <= i < j < s.len() ==> pair_lt(s[i], s[j])
}

/// Strictly increasing pairs do not repeat.
pub proof fn lemma_sorted_pairs_distinct(s: Seq<(u64, u64)>)
    requires
        pairs_sorted(s),
    ensures
        s.no_duplicates(),
{
    assert forall|i: int, j: int| 0 <= i < s.len() && 0 <= j < s.len() && i != j implies s[i] != s[j] by {
        if i < j {
            assert(pair_lt(s[i], s[j]));
        } else {
            assert(pair_lt(s[j], s[i]));
        }
    }
}

/// Adds `p` to a vector of strictly increasing pairs unless it is there.
pub fn insert_sorted_pair(v: &mut Vec<(u64, u64)>, p: (u64, u64))
    requires
        pairs_sorted(old(v)@),
    ensures
        pairs_sorted(final(v)@),
        forall|q: (u64, u64)| final(v)@.contains(q) <==> old(v)@.contains(q) || q == p,
{
    let mut i: usize = 0;
    while i < v.len() && (v[i].0 < p.0 || (v[i].0 == p.0 && v[i].1 < p.1))
        invariant
            i <= v.len(),
            forall|j: int| 0 <= j < i ==> pair_lt(#[trigger] v@[j], p),
        decreases v.len() - i,
    {
        i = i + 1;
    }
    if i < v.len() && v[i].0 == p.0 && v[i].1 == p.1 {
        assert(v@[i as int] == p);
        return;
    }
    let ghost old_v = v@;
    proof {
        assert forall|j: int| i <= j < old_v.len() implies pair_lt(p, #[trigger] old_v[j]) by {
            if j > i {
                assert(pair_lt(old_v[i as int], old_v[j]));
            }
        }
    }
    v.insert(i, p);
    proof {
        assert(v@ =~= old_v.subrange(0, i as int).push(p) + old_v.subrange(i as int, old_v.len() as int));
        assert forall|a: int, b: int| 0 <= a < b < v@.len() implies pair_lt(v@[a], v@[b]) by {
            if b < i {
                assert(pair_lt(old_v[a], old_v[b]));
            } else if a < i && b == i {
            } else if a < i {
                assert(pair_lt(old_v[a], old_v[b - 1]));
            } else if a == i {
                assert(pair_lt(p, old_v[b - 1]));
            } else {
                assert(pair_lt(old_v[a - 1], old_v[b - 1]));
            }
        }
        assert forall|q: (u64, u64)| #[trigger] v@.contains(q) <==> old_v.contains(q) || q == p by {
            if v@.contains(q) {
                let j = choose|j: int| 0 <= j < v@.len() && v@[j] == q;
                if j < i {
                    assert(old_v[j] == q);
                } else if j > i {
                    assert(old_v[j - 1] == q);
                }
            }
            if old_v.contains(q) {
                let j = choose|j: int| 0 <= j < old_v.len() && old_v[j] == q;
                if j < i {
                    assert(v@[j] == q);
                } else {
                    assert(v@[j + 1] == q);
                }
            }
            if q == p {
                assert(v@[i as int] == q);
            }
        }
    }
}

/// Whether every element of `u` occurs in `v`.
fn vec_subset(u: &Vec<u64>, v: &Vec<u64>) -> (r: bool)
    ensures
        r == (forall|x: u64| u@.contains(x) ==> v@.contains(x)),
{
    let mut i: usize = 0;
    while i < u.len()
        invariant
            i <= u.len(),
            forall|j: int| 0 <= j < i ==> v@.contains(#[trigger] u@[j]),
        decreases u.len() - i,
    {
        if !vec_contains(v, u[i]) {
            assert(u@.contains(u@[i as int]));
            return false;
        }
        i = i + 1;
    }
    assert forall|x: u64| u@.contains(x) implies v@.contains(x) by {
        let j = choose|j: int| 0 <= j < u@.len() && u@[j] == x;
        assert(v@.contains(u@[j]));
    }
    true
}

impl Relation {
    /// Every element of the domain and the codomain is below 64, so it has a mask.
    pub open spec fn wf(&self) -> bool {
        &&& forall|i: int| 0 <= i < self.a.len() ==> #[trigger] self.a@[i] < 64
        &&& forall|i: int| 0 <= i < self.b.len() ==> #[trigger] self.b@[i] < 64
    }

    /// Domain and codomain hold the same elements.
    pub open spec fn square(&self) -> bool {
        forall|x: u64| self.a@.contains(x) <==> self.b@.contains(x)
    }

    /// x is related to y.
    pub open spec fn related(&self, x: u64, y: u64) -> bool {
        self.rel@.contains((singleton(x as int), singleton(y as int)))
    }

    /// Some y of the codomain of `self` has x related to y by `self` and y to z by `rhs`.
    pub open spec fn composes(&self, rhs: &Relation, x: u64, z: u64) -> bool {
        exists|y: u64| self.b@.contains(y) && #[trigger] self.related(x, y) && rhs.related(y, z)
    }

    /// Every element of the domain is related to itself.
    pub open spec fn reflexive(&self) -> bool {
        forall|x: u64| self.a@.contains(x) ==> #[trigger] self.related(x, x)
    }

    /// Every listed pair is listed reversed too.
    pub open spec fn symmetric(&self) -> bool {
        forall|x: u64, y: u64| #[trigger] self.rel@.contains((x, y)) ==> self.rel@.contains((y, x))
    }

    /// x related to y and y to z gives x related to z, over the domain.
    pub open spec fn transitive(&self) -> bool {
        forall|x: u64, z: u64|
            self.a@.contains(x) && self.b@.contains(z) && #[trigger] self.composes(self, x, z)
                ==> self.related(x, z)
    }

    /// Reflexive, symmetric and transitive.
    pub open spec fn equivalence(&self) -> bool {
        self.reflexive() && self.symmetric() && self.transitive()
    }

    /// `q` is the pair of x and z, and x composes to z.
    pub open spec fn comp_pair(&self, rhs: &Relation, x: u64, z: u64, q: (u64, u64)) -> bool {
        self.composes(rhs, x, z) && q == (singleton(x as int), singleton(z as int))
    }

    /// `q` is a composed pair with x among the first `i` of the domain, or x the domain's
    /// element `i` and z among the first `k` of the codomain of `rhs`.
    pub open spec fn comp_prefix(&self, rhs: &Relation, i: int, k: int, q: (u64, u64)) -> bool {
        (exists|ix: int, kz: int|
            0 <= ix < i && 0 <= kz < rhs.b.len() && #[trigger] self.comp_pair(
                rhs,
                self.a@[ix],
                rhs.b@[kz],
                q,
            )) || (exists|kz: int|
            0 <= kz < k && #[trigger] self.comp_pair(rhs, self.a@[i], rhs.b@[kz], q))
    }

    proof fn lemma_comp_prefix_step(&self, rhs: &Relation, i: int, k: int, q: (u64, u64))
        requires
            0 <= i < self.a.len(),
            0 <= k < rhs.b.len(),
        ensures
            self.comp_prefix(rhs, i, k + 1, q) <==> self.comp_prefix(rhs, i, k, q) || self.comp_pair(
                rhs,
                self.a@[i],
                rhs.b@[k],
                q,
            ),
    {
        if self.comp_prefix(rhs, i, k + 1, q) && !(exists|ix: int, kz: int|
            0 <= ix < i && 0 <= kz < rhs.b.len() && #[trigger] self.comp_pair(
                rhs,
                self.a@[ix],
                rhs.b@[kz],
                q,
            )) {
            let kz = choose|kz: int|
                0 <= kz < k + 1 && #[trigger] self.comp_pair(rhs, self.a@[i], rhs.b@[kz], q);
            if kz < k {
                assert(self.comp_prefix(rhs, i, k, q));
            }
        }
    }

    proof fn lemma_comp_prefix_row(&self, rhs: &Relation, i: int, q: (u64, u64))
        requires
            0 <= i < self.a.len(),
        ensures
            self.comp_prefix(rhs, i, rhs.b.len() as int, q) <==> (i + 1 < self.a.len()
                ==> self.comp_prefix(rhs, i + 1, 0, q)) && (i + 1 == self.a.len() ==> exists|
                ix: int,
                kz: int,
            |
                0 <= ix < i + 1 && 0 <= kz < rhs.b.len() && #[trigger] self.comp_pair(
                    rhs,
                    self.a@[ix],
                    rhs.b@[kz],
                    q,
                )),
    {
        if exists|ix: int, kz: int|
            0 <= ix < i + 1 && 0 <= kz < rhs.b.len() && #[trigger] self.comp_pair(
                rhs,
                self.a@[ix],
                rhs.b@[kz],
                q,
            ) {
            let (ix, kz) = choose|ix: int, kz: int|
                0 <= ix < i + 1 && 0 <= kz < rhs.b.len() && #[trigger] self.comp_pair(
                    rhs,
                    self.a@[ix],
                    rhs.b@[kz],
                    q,
                );
            if ix == i {
                assert(self.comp_prefix(rhs, i, rhs.b.len() as int, q));
            }
        }
        if self.comp_prefix(rhs, i, rhs.b.len() as int, q) {
            if exists|kz: int|
                0 <= kz < rhs.b.len() && #[trigger] self.comp_pair(rhs, self.a@[i], rhs.b@[kz], q) {
                let kz = choose|kz: int|
                    0 <= kz < rhs.b.len() && #[trigger] self.comp_pair(rhs, self.a@[i], rhs.b@[kz], q);
                assert(0 <= i < i + 1 && self.comp_pair(rhs, self.a@[i], rhs.b@[kz], q));
            } else {
                let (ix, kz) = choose|ix: int, kz: int|
                    0 <= ix < i && 0 <= kz < rhs.b.len() && #[trigger] self.comp_pair(
                        rhs,
                        self.a@[ix],
                        rhs.b@[kz],
                        q,
                    );
                assert(0 <= ix < i + 1);
            }
        }
    }

    /// The composition: x is related to z when some y of the middle set links them.
    /// The codomain of `self` must hold the same elements as the domain of `rhs`.
    pub fn mul(&self, rhs: &Relation) -> (r: Result<Relation, HsError>)
        requires
            self.wf(),
            rhs.wf(),
        ensures
            r is Ok <==> (forall|y: u64| self.b@.contains(y) <==> rhs.a@.contains(y)),
            r matches Err(e) ==> e == HsError::DomainMismatch,
            r matches Ok(c) ==> c.a@ == self.a@ && c.b@ == rhs.b@ && c.rel@.no_duplicates() && pairs_sorted(c.rel@) && (
            forall|q: (u64, u64)|
                #[trigger] c.rel@.contains(q) <==> exists|x: u64, z: u64|
                    self.a@.contains(x) && rhs.b@.contains(z) && self.comp_pair(rhs, x, z, q)),
    {
        if !vec_subset(&self.b, &rhs.a) || !vec_subset(&rhs.a, &self.b) {
            return Err(HsError::DomainMismatch);
        }
        let mut out: Vec<(u64, u64)> = Vec::new();
        let mut i: usize = 0;
        if self.a.len() == 0 {
            let c = Relation { a: self.a.clone(), b: rhs.b.clone(), rel: out };
            assert(c.rel@ =~= seq![]);
            return Ok(c);
        }
        while i < self.a.len()
            invariant
                self.wf(),
                rhs.wf(),
                i <= self.a.len(),
                self.a.len() > 0,
                pairs_sorted(out@),
                i < self.a.len() ==> forall|q: (u64, u64)|
                    #[trigger] out@.contains(q) <==> self.comp_prefix(rhs, i as int, 0, q),
                i == self.a.len() ==> forall|q: (u64, u64)|
                    #[trigger] out@.contains(q) <==> exists|ix: int, kz: int|
                        0 <= ix < i && 0 <= kz < rhs.b.len() && #[trigger] self.comp_pair(
                            rhs,
                            self.a@[ix],
                            rhs.b@[kz],
                            q,
                        ),
            decreases self.a.len() - i,
        {
            let x = self.a[i];
            assert(self.a@[i as int] < 64);
            let mut k: usize = 0;
            while k < rhs.b.len()
                invariant
                    self.wf(),
                    rhs.wf(),
                    i < self.a.len(),
                    x == self.a@[i as int],
                    x < 64,
                    k <= rhs.b.len(),
                    pairs_sorted(out@),
                    forall|q: (u64, u64)|
                        #[trigger] out@.contains(q) <==> self.comp_prefix(rhs, i as int, k as int, q),
                decreases rhs.b.len() - k,
            {
                let z = rhs.b[k];
                assert(rhs.b@[k as int] < 64);
                let found = self.links(rhs, x, z);
                let p: (u64, u64) = (1u64 << x, 1u64 << z);
                let ghost old_out = out@;
                if found {
                    insert_sorted_pair(&mut out, p);
                }
                proof {
                    assert forall|q: (u64, u64)| #[trigger] out@.contains(q) <==> self.comp_prefix(
                        rhs,
                        i as int,
                        k + 1,
                        q,
                    ) by {
                        self.lemma_comp_prefix_step(rhs, i as int, k as int, q);
                        assert(old_out.contains(q) <==> self.comp_prefix(rhs, i as int, k as int, q));
                    }
                }
                k = k + 1;
            }
            proof {
                assert forall|q: (u64, u64)| #[trigger] out@.contains(q) implies (i + 1 < self.a.len()
                    ==> self.comp_prefix(rhs, i + 1, 0, q)) by {
                    self.lemma_comp_prefix_row(rhs, i as int, q);
                }
                assert forall|q: (u64, u64)| (i + 1 < self.a.len() ==> self.comp_prefix(
                    rhs,
                    i + 1,
                    0,
                    q,
                )) && i + 1 < self.a.len() implies #[trigger] out@.contains(q) by {
                    self.lemma_comp_prefix_row(rhs, i as int, q);
                }
                if i + 1 == self.a.len() {
                    assert forall|q: (u64, u64)| #[trigger] out@.contains(q) <==> exists|ix: int, kz: int|
                        0 <= ix < i + 1 && 0 <= kz < rhs.b.len() && #[trigger] self.comp_pair(
                            rhs,
                            self.a@[ix],
                            rhs.b@[kz],
                            q,
                        ) by {
                        self.lemma_comp_prefix_row(rhs, i as int, q);
                    }
                }
            }
            i = i + 1;
        }
        let c = Relation { a: self.a.clone(), b: rhs.b.clone(), rel: out };
        proof {
            lemma_sorted_pairs_distinct(c.rel@);
            assert forall|q: (u64, u64)| #[trigger] c.rel@.contains(q) <==> exists|x: u64, z: u64|
                self.a@.contains(x) && rhs.b@.contains(z) && self.comp_pair(rhs, x, z, q) by {
                if exists|x: u64, z: u64|
                    self.a@.contains(x) && rhs.b@.contains(z) && self.comp_pair(rhs, x, z, q) {
                    let (x, z) = choose|x: u64, z: u64|
                        self.a@.contains(x) && rhs.b@.contains(z) && self.comp_pair(rhs, x, z, q);
                    let ix = choose|ix: int| 0 <= ix < self.a@.len() && self.a@[ix] == x;
                    let kz = choose|kz: int| 0 <= kz < rhs.b@.len() && rhs.b@[kz] == z;
                    assert(self.comp_pair(rhs, self.a@[ix], rhs.b@[kz], q));
                }
                if c.rel@.contains(q) {
                    let (ix, kz) = choose|ix: int, kz: int|
                        0 <= ix < i && 0 <= kz < rhs.b.len() && #[trigger] self.comp_pair(
                            rhs,
                            self.a@[ix],
                            rhs.b@[kz],
                            q,
                        );
                    assert(self.a@.contains(self.a@[ix]));
                    assert(rhs.b@.contains(rhs.b@[kz]));
                }
            }
        }
        Ok(c)
    }

    /// Whether some y of the codomain links x to z through `self` then `rhs`.
    fn links(&self, rhs: &Relation, x: u64, z: u64) -> (r: bool)
        requires
            self.wf(),
            rhs.wf(),
            x < 64,
            z < 64,
        ensures
            r == self.composes(rhs, x, z),
    {
        let mut j: usize = 0;
        while j < self.b.len()
            invariant
                self.wf(),
                x < 64,
                z < 64,
                j <= self.b.len(),
                forall|jj: int| 0 <= jj < j ==> !(self.related(x, #[trigger] self.b@[jj]) && rhs.related(self.b@[jj], z)),
            decreases self.b.len() - j,
        {
            let y = self.b[j];
            assert(self.b@[j as int] < 64);
            if pairs_contain(&self.rel, (1u64 << x, 1u64 << y)) && pairs_contain(&rhs.rel, (1u64 << y, 1u64 << z)) {
                assert(self.b@.contains(y));
                assert((1u64 << x, 1u64 << y) == (singleton(x as int), singleton(y as int)));
                assert((1u64 << y, 1u64 << z) == (singleton(y as int), singleton(z as int)));
                assert(self.related(x, y) && rhs.related(y, z));
                return true;
            }
            j = j + 1;
        }
        assert forall|y: u64| self.b@.contains(y) implies !(#[trigger] self.related(x, y) && rhs.related(y, z)) by {
            let jj = choose|jj: int| 0 <= jj < self.b@.len() && self.b@[jj] == y;
        }
        false
    }
}

/// Some class of `cs` holds the mask `m`.
pub open spec fn covered(cs: Seq<(u64, Seq<u64>)>, m: u64) -> bool {
    exists|i: int| 0 <= i < cs.len() && (#[trigger] cs[i]).1.contains(m)
}

impl Relation {
    /// The masks of the codomain elements below `f` related to the mask `rep`, in order.
    pub open spec fn class_of(&self, rep: u64, f: int) -> Seq<u64>
        decreases f,
    {
        if f <= 0 {
            seq![]
        } else {
            let prev = self.class_of(rep, f - 1);
            if self.b@.contains((f - 1) as u64) && self.rel@.contains((rep, singleton(f - 1))) {
                prev.push(singleton(f - 1))
            } else {
                prev
            }
        }
    }

    /// The classes of the domain elements below `e`: each element not yet in a class
    /// starts one, made of every codomain element related to it.
    pub open spec fn classes_upto(&self, e: int) -> Seq<(u64, Seq<u64>)>
        decreases e,
    {
        if e <= 0 {
            seq![]
        } else {
            let prev = self.classes_upto(e - 1);
            let m = singleton(e - 1);
            if self.a@.contains((e - 1) as u64) && !covered(prev, m) {
                prev.push((m, self.class_of(m, 64)))
            } else {
                prev
            }
        }
    }

    /// Whether every element of the domain is related to itself.
    pub fn is_reflexive(&self) -> (r: bool)
        requires
            self.wf(),
        ensures
            r == self.reflexive(),
    {
        let mut i: usize = 0;
        while i < self.a.len()
            invariant
                self.wf(),
                i <= self.a.len(),
                forall|j: int| 0 <= j < i ==> self.related(#[trigger] self.a@[j], self.a@[j]),
            decreases self.a.len() - i,
        {
            let x = self.a[i];
            assert(self.a@[i as int] < 64);
            assert((1u64 << x, 1u64 << x) == (singleton(x as int), singleton(x as int)));
            if !pairs_contain(&self.rel, (1u64 << x, 1u64 << x)) {
                assert(self.a@.contains(x));
                assert(!self.related(x, x));
                return false;
            }
            i = i + 1;
        }
        assert forall|x: u64| self.a@.contains(x) implies #[trigger] self.related(x, x) by {
            let j = choose|j: int| 0 <= j < self.a@.len() && self.a@[j] == x;
            assert(self.related(self.a@[j], self.a@[j]));
        }
        true
    }

    /// Whether every listed pair is listed reversed too.
    pub fn is_symmetric(&self) -> (r: bool)
        ensures
            r == self.symmetric(),
    {
        let mut i: usize = 0;
        while i < self.rel.len()
            invariant
                i <= self.rel.len(),
                forall|j: int| 0 <= j < i ==> self.rel@.contains(((#[trigger] self.rel@[j]).1, self.rel@[j].0)),
            decreases self.rel.len() - i,
        {
            let p = self.rel[i];
            if !pairs_contain(&self.rel, (p.1, p.0)) {
                assert(self.rel@.contains((p.0, p.1)));
                return false;
            }
            i = i + 1;
        }
        assert forall|x: u64, y: u64| #[trigger] self.rel@.contains((x, y)) implies self.rel@.contains((y, x)) by {
            let j = choose|j: int| 0 <= j < self.rel@.len() && self.rel@[j] == (x, y);
            assert(self.rel@.contains((self.rel@[j].1, self.rel@[j].0)));
        }
        true
    }

    /// Whether x related to y and y to z always gives x related to z: the composition of
    /// the relation with itself lies inside it.
    pub fn is_transitive(&self) -> (r: bool)
        requires
            self.wf(),
            self.square(),
        ensures
            r == self.transitive(),
    {
        let rr = match self.mul(self) {
            Ok(c) => c,
            Err(_) => {
                return false;
            },
        };
        let mut i: usize = 0;
        while i < rr.rel.len()
            invariant
                i <= rr.rel.len(),
                forall|j: int| 0 <= j < i ==> self.rel@.contains(#[trigger] rr.rel@[j]),
                forall|q: (u64, u64)|
                    #[trigger] rr.rel@.contains(q) <==> exists|x: u64, z: u64|
                        self.a@.contains(x) && self.b@.contains(z) && self.comp_pair(self, x, z, q),
            decreases rr.rel.len() - i,
        {
            if !pairs_contain(&self.rel, rr.rel[i]) {
                proof {
                    let q = rr.rel@[i as int];
                    assert(rr.rel@.contains(q));
                    let (x, z) = choose|x: u64, z: u64|
                        self.a@.contains(x) && self.b@.contains(z) && self.comp_pair(self, x, z, q);
                    assert(self.composes(self, x, z));
                    assert(!self.related(x, z));
                }
                return false;
            }
            i = i + 1;
        }
        assert forall|x: u64, z: u64|
            self.a@.contains(x) && self.b@.contains(z) && #[trigger] self.composes(self, x, z)
                implies self.related(x, z) by {
            let q = (singleton(x as int), singleton(z as int));
            assert(self.comp_pair(self, x, z, q));
            assert(rr.rel@.contains(q));
            let j = choose|j: int| 0 <= j < rr.rel@.len() && rr.rel@[j] == q;
            assert(self.rel@.contains(rr.rel@[j]));
        }
        true
    }

    /// Whether the relation is reflexive, symmetric and transitive.
    pub fn is_equivalence(&self) -> (r: bool)
        requires
            self.wf(),
            self.square(),
        ensures
            r == self.equivalence(),
    {
        self.is_reflexive() && self.is_symmetric() && self.is_transitive()
    }

    /// The codomain masks related to `rep`, in order of their element.
    fn class_members(&self, rep: u64) -> (r: Vec<u64>)
        requires
            self.wf(),
        ensures
            r@ == self.class_of(rep, 64),
    {
        let mut class: Vec<u64> = Vec::new();
        let mut f: u64 = 0;
        while f < 64
            invariant
                f <= 64,
                class@ == self.class_of(rep, f as int),
            decreases 64 - f,
        {
            if vec_contains(&self.b, f) && pairs_contain(&self.rel, (rep, 1u64 << f)) {
                class.push(1u64 << f);
            }
            f = f + 1;
        }
        class
    }

    /// The classes of an equivalence relation: the domain elements are taken in order,
    /// and each one not yet placed starts a class of every element related to it.
    /// Each class is given as (mask of its first element, masks of its members).
    pub fn collect_classes(&self) -> (r: Vec<(u64, Vec<u64>)>)
        requires
            self.wf(),
            self.square(),
            self.equivalence(),
        ensures
            r@.map_values(|c: (u64, Vec<u64>)| (c.0, c.1@)) == self.classes_upto(64),
            forall|x: u64|
                #[trigger] self.a@.contains(x) ==> exists|i: int|
                    0 <= i < r.len() && r@[i].1@.contains(singleton(x as int)),
            forall|i: int, j: int, m: u64|
                #![trigger r@[i].1@.contains(m), r@[j].1@.contains(m)]
                0 <= i < r.len() && 0 <= j < r.len() && r@[i].1@.contains(m) && r@[j].1@.contains(m) ==> i == j,
            forall|i: int, m: u64|
                0 <= i < r.len() ==> (#[trigger] r@[i].1@.contains(m) <==> exists|g: int|
                    0 <= g < 64 && self.b@.contains(g as u64) && #[trigger] self.rel@.contains((r@[i].0, singleton(g)))
                        && m == singleton(g)),
            forall|i: int| 0 <= i < r.len() ==> #[trigger] r@[i].1@.contains(r@[i].0),
            forall|i: int, m: u64| 0 <= i < r.len() && #[trigger] r@[i].1@.contains(m) ==> r@[i].0 <= m,
    {
        let mut classes: Vec<(u64, Vec<u64>)> = Vec::new();
        let mut processed: Vec<u64> = Vec::new();
        let mut e: u64 = 0;
        while e < 64
            invariant
                self.wf(),
                e <= 64,
                classes@.map_values(|c: (u64, Vec<u64>)| (c.0, c.1@)) == self.classes_upto(e as int),
                forall|m: u64| processed@.contains(m) <==> covered(self.classes_upto(e as int), m),
            decreases 64 - e,
        {
            let m: u64 = 1u64 << e;
            let ghost prev = self.classes_upto(e as int);
            let ghost seen_before = processed@;
            assert(forall|q: u64| seen_before.contains(q) <==> covered(prev, q));
            if vec_contains(&self.a, e) && !vec_contains(&processed, m) {
                let class = self.class_members(m);
                let ghost cv = class@;
                let ghost old_p = processed@;
                processed.extend_from_slice(class.as_slice());
                classes.push((m, class));
                proof {
                    let next = self.classes_upto(e as int + 1);
                    assert(next == prev.push((m, cv)));
                    assert(classes@.map_values(|c: (u64, Vec<u64>)| (c.0, c.1@)) =~= next);
                    assert forall|q: u64| processed@.contains(q) <==> covered(next, q) by {
                        if processed@.contains(q) {
                            let j = choose|j: int| 0 <= j < processed@.len() && processed@[j] == q;
                            if j < old_p.len() {
                                assert(old_p.contains(q));
                                assert(covered(prev, q));
                                let i = choose|i: int| 0 <= i < prev.len() && (#[trigger] prev[i]).1.contains(q);
                                assert(next[i] == prev[i]);
                            } else {
                                assert(cv[j - old_p.len()] == q);
                                assert(next[prev.len() as int].1.contains(q));
                            }
                        }
                        if covered(next, q) {
                            let i = choose|i: int| 0 <= i < next.len() && (#[trigger] next[i]).1.contains(q);
                            if i < prev.len() {
                                assert(next[i] == prev[i]);
                                assert(covered(prev, q));
                                assert(old_p.contains(q));
                                let j = choose|j: int| 0 <= j < old_p.len() && old_p[j] == q;
                                assert(processed@[j] == q);
                            } else {
                                let j = choose|j: int| 0 <= j < cv.len() && cv[j] == q;
                                assert(processed@[old_p.len() + j] == q);
                            }
                        }
                    }
                }
            }
            e = e + 1;
        }
        proof {
            self.lemma_collect_classes_facts();
            let cs = self.classes_upto(64);
            assert forall|i: int| 0 <= i < classes.len() implies classes@[i].0 == cs[i].0 && classes@[i].1@ == cs[i].1 by {
                assert(classes@.map_values(|c: (u64, Vec<u64>)| (c.0, c.1@))[i] == cs[i]);
            }
            assert(classes.len() == cs.len());
            assert forall|i: int, j: int, m: u64|
                #![trigger classes@[i].1@.contains(m), classes@[j].1@.contains(m)]
                0 <= i < classes.len() && 0 <= j < classes.len() && classes@[i].1@.contains(m)
                    && classes@[j].1@.contains(m) implies i == j by {
                assert(cs[i].1.contains(m) && cs[j].1.contains(m));
            }
            assert forall|i: int, m: u64| 0 <= i < classes.len() implies (#[trigger] classes@[i].1@.contains(m)
                <==> exists|g: int|
                0 <= g < 64 && self.b@.contains(g as u64) && #[trigger] self.rel@.contains((classes@[i].0, singleton(g)))
                    && m == singleton(g)) by {
                assert(cs[i].1.contains(m) <==> classes@[i].1@.contains(m));
                assert(cs[i].0 == classes@[i].0);
            }
            assert forall|i: int| 0 <= i < classes.len() implies #[trigger] classes@[i].1@.contains(classes@[i].0) by {
                assert(cs[i].1.contains(cs[i].0));
            }
            assert forall|i: int, m: u64| 0 <= i < classes.len() && #[trigger] classes@[i].1@.contains(m) implies classes@[i].0 <= m by {
                assert(cs[i].1.contains(m));
            }
        }
        classes
    }

    /// The facts about `classes_upto(64)` that `collect_classes` states.
    proof fn lemma_collect_classes_facts(&self)
        requires
            self.wf(),
            self.square(),
            self.equivalence(),
        ensures
            forall|x: u64|
                #[trigger] self.a@.contains(x) ==> exists|i: int|
                    0 <= i < self.classes_upto(64).len() && self.classes_upto(64)[i].1.contains(singleton(x as int)),
            forall|i: int, j: int, m: u64|
                #![trigger self.classes_upto(64)[i].1.contains(m), self.classes_upto(64)[j].1.contains(m)]
                0 <= i < self.classes_upto(64).len() && 0 <= j < self.classes_upto(64).len()
                    && self.classes_upto(64)[i].1.contains(m) && self.classes_upto(64)[j].1.contains(m) ==> i == j,
            forall|i: int, m: u64|
                0 <= i < self.classes_upto(64).len() ==> (#[trigger] self.classes_upto(64)[i].1.contains(m) <==> exists|g: int|
                    0 <= g < 64 && self.b@.contains(g as u64) && #[trigger] self.rel@.contains((self.classes_upto(64)[i].0, singleton(g)))
                        && m == singleton(g)),
            forall|i: int| 0 <= i < self.classes_upto(64).len() ==> #[trigger] self.classes_upto(64)[i].1.contains(self.classes_upto(64)[i].0),
            forall|i: int, m: u64|
                0 <= i < self.classes_upto(64).len() && #[trigger] self.classes_upto(64)[i].1.contains(m) ==> self.classes_upto(64)[i].0 <= m,
    {
        self.lemma_classes_step(64);
        let cs = self.classes_upto(64);
        assert forall|x: u64| #[trigger] self.a@.contains(x) implies exists|i: int|
            0 <= i < cs.len() && cs[i].1.contains(singleton(x as int)) by {
            let k = choose|k: int| 0 <= k < self.a@.len() && self.a@[k] == x;
            assert(self.a@[k] < 64);
            assert(covered(cs, singleton(x as int)));
        }
        assert forall|i: int, j: int, m: u64|
            #![trigger cs[i].1.contains(m), cs[j].1.contains(m)]
            0 <= i < cs.len() && 0 <= j < cs.len() && cs[i].1.contains(m) && cs[j].1.contains(m) implies i == j by {
            if i < j {
                assert(!cs[j].1.contains(m));
            } else if j < i {
                assert(!cs[i].1.contains(m));
            }
        }
        assert forall|i: int, m: u64| 0 <= i < cs.len() implies (#[trigger] cs[i].1.contains(m) <==> exists|g: int|
            0 <= g < 64 && self.b@.contains(g as u64) && #[trigger] self.rel@.contains((cs[i].0, singleton(g)))
                && m == singleton(g)) by {
            let x = choose|x: int|
                0 <= x < 64 && self.a@.contains(x as u64) && #[trigger] cs[i] == (
                    singleton(x),
                    self.class_of(singleton(x), 64),
                );
            self.lemma_class_of_contains(singleton(x), 64, m);
        }
        assert forall|i: int| 0 <= i < cs.len() implies #[trigger] cs[i].1.contains(cs[i].0) by {
            let x = choose|x: int|
                0 <= x < 64 && self.a@.contains(x as u64) && #[trigger] cs[i] == (
                    singleton(x),
                    self.class_of(singleton(x), 64),
                );
            assert(self.b@.contains(x as u64));
            assert(self.related(x as u64, x as u64));
            self.lemma_class_of_contains(singleton(x), 64, singleton(x));
        }
    }
}

impl Relation {
    /// The members of a class are the masks of the codomain elements related to its
    /// representative.
    pub proof fn lemma_class_of_contains(&self, rep: u64, f: int, m: u64)
        requires
            0 <= f <= 64,
        ensures
            self.class_of(rep, f).contains(m) <==> exists|g: int|
                0 <= g < f && self.b@.contains(g as u64) && #[trigger] self.rel@.contains((rep, singleton(g)))
                    && m == singleton(g),
        decreases f,
    {
        if f > 0 {
            self.lemma_class_of_contains(rep, f - 1, m);
            let prev = self.class_of(rep, f - 1);
            let cur = self.class_of(rep, f);
            if self.b@.contains((f - 1) as u64) && self.rel@.contains((rep, singleton(f - 1))) {
                assert(cur == prev.push(singleton(f - 1)));
                if cur.contains(m) {
                    let j = choose|j: int| 0 <= j < cur.len() && cur[j] == m;
                    if j < prev.len() {
                        assert(prev[j] == m);
                    }
                }
                if prev.contains(m) {
                    let j = choose|j: int| 0 <= j < prev.len() && prev[j] == m;
                    assert(cur[j] == m);
                }
                if m == singleton(f - 1) {
                    assert(cur[prev.len() as int] == m);
                }
            }
            if exists|g: int|
                0 <= g < f && self.b@.contains(g as u64) && #[trigger] self.rel@.contains((rep, singleton(g)))
                    && m == singleton(g) {
                let g = choose|g: int|
                    0 <= g < f && self.b@.contains(g as u64) && #[trigger] self.rel@.contains((rep, singleton(g)))
                        && m == singleton(g);
                if g < f - 1 {
                    assert(0 <= g < f - 1 && self.b@.contains(g as u64) && self.rel@.contains((rep, singleton(g))));
                }
            }
        }
    }

    /// Two classes of an equivalence relation that share a member: the representative
    /// of the second lies in the first.
    proof fn lemma_shared_member(&self, x: int, y: int, m: u64)
        requires
            self.wf(),
            self.square(),
            self.equivalence(),
            0 <= x < 64,
            0 <= y < 64,
            self.a@.contains(x as u64),
            self.a@.contains(y as u64),
            self.class_of(singleton(x), 64).contains(m),
            self.class_of(singleton(y), 64).contains(m),
        ensures
            self.class_of(singleton(x), 64).contains(singleton(y)),
    {
        let m0 = singleton(y);
        self.lemma_class_of_contains(m0, 64, m);
        self.lemma_class_of_contains(singleton(x), 64, m);
        let g = choose|g: int|
            0 <= g < 64 && self.b@.contains(g as u64) && #[trigger] self.rel@.contains((m0, singleton(g)))
                && m == singleton(g);
        let g2 = choose|g2: int|
            0 <= g2 < 64 && self.b@.contains(g2 as u64) && #[trigger] self.rel@.contains((singleton(x), singleton(g2)))
                && m == singleton(g2);
        crate::hs::lemma_singleton_injective(g as u64, g2 as u64);
        assert(self.rel@.contains((singleton(g), m0)));
        assert(self.related(g as u64, y as u64));
        assert(self.related(x as u64, g as u64));
        assert(self.b@.contains(y as u64));
        assert(self.composes(self, x as u64, y as u64));
        assert(self.related(x as u64, y as u64));
        self.lemma_class_of_contains(singleton(x), 64, m0);
    }

    /// The classes after the first `e` steps of `collect_classes` are started by distinct
    /// domain elements below `e`, are pairwise disjoint, and together hold every domain
    /// element below `e`.
    pub open spec fn classes_inv(&self, e: int) -> bool {
        &&& forall|i: int|
            0 <= i < self.classes_upto(e).len() ==> exists|x: int|
                0 <= x < e && self.a@.contains(x as u64) && #[trigger] self.classes_upto(e)[i] == (
                    singleton(x),
                    self.class_of(singleton(x), 64),
                )
        &&& forall|i: int, j: int, m: u64|
            #![trigger self.classes_upto(e)[i].1.contains(m), self.classes_upto(e)[j].1.contains(m)]
            0 <= i < j < self.classes_upto(e).len() && self.classes_upto(e)[i].1.contains(m)
                ==> !self.classes_upto(e)[j].1.contains(m)
        &&& forall|x: int| 0 <= x < e && self.a@.contains(x as u64) ==> covered(self.classes_upto(e), #[trigger] singleton(x))
        &&& forall|i: int, m: u64|
            0 <= i < self.classes_upto(e).len() && #[trigger] self.classes_upto(e)[i].1.contains(m) ==> self.classes_upto(e)[i].0 <= m
    }

    proof fn lemma_classes_step(&self, e: int)
        requires
            self.wf(),
            self.square(),
            self.equivalence(),
            0 <= e <= 64,
        ensures
            self.classes_inv(e),
        decreases e,
    {
        if e > 0 {
            self.lemma_classes_step(e - 1);
            let prev = self.classes_upto(e - 1);
            let m0 = singleton(e - 1);
            if self.a@.contains((e - 1) as u64) && !covered(prev, m0) {
                self.lemma_step_new_class(e);
            } else {
                self.lemma_step_no_class(e);
            }
        }
    }

    #[verifier::rlimit(40)]
    proof fn lemma_step_no_class(&self, e: int)
        requires
            self.wf(),
            0 < e <= 64,
            self.classes_inv(e - 1),
            !(self.a@.contains((e - 1) as u64) && !covered(self.classes_upto(e - 1), singleton(e - 1))),
        ensures
            self.classes_inv(e),
    {
        let prev = self.classes_upto(e - 1);
        let cur = self.classes_upto(e);
        assert(cur == prev);
        assert forall|i: int| 0 <= i < cur.len() implies exists|x: int|
            0 <= x < e && self.a@.contains(x as u64) && #[trigger] cur[i] == (
                singleton(x),
                self.class_of(singleton(x), 64),
            ) by {
            let x = choose|x: int|
                0 <= x < e - 1 && self.a@.contains(x as u64) && #[trigger] prev[i] == (
                    singleton(x),
                    self.class_of(singleton(x), 64),
                );
        }
        assert forall|x: int| 0 <= x < e && self.a@.contains(x as u64) implies covered(cur, #[trigger] singleton(x)) by {
            if x < e - 1 {
                assert(covered(prev, singleton(x)));
            } else {
                assert(x == e - 1);
                assert(covered(prev, singleton(e - 1)));
            }
        }
        assert forall|i: int, j: int, m: u64|
            #![trigger cur[i].1.contains(m), cur[j].1.contains(m)]
            0 <= i < j < cur.len() && cur[i].1.contains(m) implies !cur[j].1.contains(m) by {
            assert(prev[i].1.contains(m));
        }
        assert forall|i: int, m: u64| 0 <= i < cur.len() && #[trigger] cur[i].1.contains(m) implies cur[i].0 <= m by {
            assert(prev[i].1.contains(m));
        }
    }

    #[verifier::rlimit(60)]
    proof fn lemma_step_new_class(&self, e: int)
        requires
            self.wf(),
            self.square(),
            self.equivalence(),
            0 < e <= 64,
            self.classes_inv(e - 1),
            self.a@.contains((e - 1) as u64),
            !covered(self.classes_upto(e - 1), singleton(e - 1)),
        ensures
            self.classes_inv(e),
    {
        let prev = self.classes_upto(e - 1);
        let cur = self.classes_upto(e);
        let m0 = singleton(e - 1);
        let cls = self.class_of(m0, 64);
        assert(cur == prev.push((m0, cls)));
        assert forall|i: int| 0 <= i < prev.len() implies cur[i] == prev[i] by {}
        // the new class holds its own representative
        assert(self.b@.contains((e - 1) as u64));
        assert(self.related((e - 1) as u64, (e - 1) as u64));
        self.lemma_class_of_contains(m0, 64, m0);
        assert(cur[prev.len() as int].1.contains(m0));
        assert forall|x: int| 0 <= x < e && self.a@.contains(x as u64) implies covered(cur, #[trigger] singleton(x)) by {
            if x < e - 1 {
                assert(covered(prev, singleton(x)));
                let i = choose|i: int| 0 <= i < prev.len() && (#[trigger] prev[i]).1.contains(singleton(x));
                assert(cur[i] == prev[i]);
            } else {
                assert(cur[prev.len() as int].1.contains(singleton(x)));
            }
        }
        // it shares no member with an earlier class
        assert forall|i: int, m: u64| 0 <= i < prev.len() && #[trigger] prev[i].1.contains(m)
            implies !cls.contains(m) by {
            let x = choose|x: int|
                0 <= x < e - 1 && self.a@.contains(x as u64) && #[trigger] prev[i] == (
                    singleton(x),
                    self.class_of(singleton(x), 64),
                );
            if cls.contains(m) {
                self.lemma_shared_member(x, e - 1, m);
                assert(prev[i].1.contains(m0));
            }
        }
        assert forall|i: int, j: int, m: u64|
            #![trigger cur[i].1.contains(m), cur[j].1.contains(m)]
            0 <= i < j < cur.len() && cur[i].1.contains(m) implies !cur[j].1.contains(m) by {
            assert(cur[i] == prev[i]);
            if j < prev.len() {
                assert(cur[j] == prev[j]);
                assert(prev[i].1.contains(m));
            } else {
                assert(prev[i].1.contains(m));
                assert(cur[j].1 == cls);
            }
        }
        assert forall|m: u64| #[trigger] cls.contains(m) implies m0 <= m by {
            self.lemma_class_of_contains(m0, 64, m);
            let g = choose|g: int|
                0 <= g < 64 && self.b@.contains(g as u64) && #[trigger] self.rel@.contains((m0, singleton(g)))
                    && m == singleton(g);
            if g < e - 1 {
                assert(self.a@.contains(g as u64));
                assert(covered(prev, singleton(g)));
                let j = choose|j: int| 0 <= j < prev.len() && (#[trigger] prev[j]).1.contains(singleton(g));
                let x = choose|x: int|
                    0 <= x < e - 1 && self.a@.contains(x as u64) && #[trigger] prev[j] == (
                        singleton(x),
                        self.class_of(singleton(x), 64),
                    );
                self.lemma_shared_member(x, e - 1, m);
                assert(prev[j].1.contains(m0));
                assert(false);
            } else if g > e - 1 {
                crate::hs::lemma_singleton_increasing((e - 1) as u64, g as u64);
            }
        }
        assert forall|i: int, m: u64| 0 <= i < cur.len() && #[trigger] cur[i].1.contains(m) implies cur[i].0 <= m by {
            if i < prev.len() {
                assert(cur[i] == prev[i]);
                assert(prev[i].1.contains(m));
            } else {
                assert(cur[i] == (m0, cls));
            }
        }
        assert forall|i: int| 0 <= i < cur.len() implies exists|x: int|
            0 <= x < e && self.a@.contains(x as u64) && #[trigger] cur[i] == (
                singleton(x),
                self.class_of(singleton(x), 64),
            ) by {
            if i < prev.len() {
                let x = choose|x: int|
                    0 <= x < e - 1 && self.a@.contains(x as u64) && #[trigger] prev[i] == (
                        singleton(x),
                        self.class_of(singleton(x), 64),
                    );
                assert(cur[i] == prev[i]);
            } else {
                assert(cur[i] == (singleton(e - 1), self.class_of(singleton(e - 1), 64)));
            }
        }
    }

    /// For an equivalence relation, the classes that `collect_classes` returns partition
    /// the domain: each domain element lies in exactly one class.
    pub proof fn lemma_classes_partition(&self, x: u64)
        requires
            self.wf(),
            self.square(),
            self.equivalence(),
            self.a@.contains(x),
        ensures
            exists|i: int|
                0 <= i < self.classes_upto(64).len() && (#[trigger] self.classes_upto(64)[i]).1.contains(
                    singleton(x as int),
                ),
            forall|i: int, j: int|
                0 <= i < self.classes_upto(64).len() && 0 <= j < self.classes_upto(64).len()
                    && (#[trigger] self.classes_upto(64)[i]).1.contains(singleton(x as int))
                    && (#[trigger] self.classes_upto(64)[j]).1.contains(singleton(x as int)) ==> i == j,
    {
        self.lemma_classes_step(64);
        let k = choose|k: int| 0 <= k < self.a@.len() && self.a@[k] == x;
        assert(self.a@[k] < 64);
        assert(covered(self.classes_upto(64), singleton(x as int)));
        let cs = self.classes_upto(64);
        assert forall|i: int, j: int|
            0 <= i < cs.len() && 0 <= j < cs.len() && (#[trigger] cs[i]).1.contains(singleton(x as int))
                && (#[trigger] cs[j]).1.contains(singleton(x as int)) implies i == j by {
            if i < j {
                assert(!cs[j].1.contains(singleton(x as int)));
            } else if j < i {
                assert(!cs[i].1.contains(singleton(x as int)));
            }
        }
    }
}

} // verus!
