//! Hypergroups: tables that are associative and reproductive.
use crate::codec::base;
use crate::error::HsError;
use crate::hs::{
    entry, hypergroup, left_div_upto, mul_spec, reproductive, right_div_upto, row_or, singleton,
    full_mask, square_table, table_wf, HyperGroupoidMat,
};
use vstd::prelude::*;

verus! {

/// A hypergroup on the carrier {0, ..., n-1}.
pub struct HyperGroup {
    pub h: HyperGroupoidMat,
}

/// Whenever b\a and c/d meet, a o d and b o c meet, for all elements a, b, c, d.
pub open spec fn transposition(t: Seq<u64>, n: nat) -> bool {
    forall|a: int, b: int, c: int, d: int|
        0 <= a < n && 0 <= b < n && 0 <= c < n && 0 <= d < n ==> #[trigger] transposition_at(t, n, a, b, c, d)
}

/// The transposition condition for the elements a, b, c, d.
pub open spec fn transposition_at(t: Seq<u64>, n: nat, a: int, b: int, c: int, d: int) -> bool {
    left_div_upto(t, n, singleton(a), singleton(b), n as int) & right_div_upto(t, n, singleton(c), singleton(d), n as int) != 0
        ==> mul_spec(t, n, singleton(a), singleton(d)) & mul_spec(t, n, singleton(b), singleton(c)) != 0
}

/// A table one of whose rows does not cover the carrier is not reproductive.
pub proof fn lemma_reproductive_boundary(t: Seq<u64>, n: nat, x: int)
    requires
        0 <= x < n,
        row_or(t, n, x, n as int) != full_mask(n),
    ensures
        !reproductive(t, n),
{
    assert(!(row_or(t, n, x, n as int) == full_mask(n) && crate::hs::col_or(t, n, x, n as int) == full_mask(n)));
}

impl HyperGroup {
    /// The table x o y = `function(x, y)` on `cardinality` elements, kept when it is a
    /// hypergroup. A product that is empty or leaves the carrier is refused as a
    /// malformed table, and a table that is not a hypergroup as a violated precondition.
    pub fn new_from_function<F: Fn(u64, u64) -> u64>(function: F, cardinality: &u64) -> (r: Result<HyperGroup, HsError>)
        requires
            1 <= *cardinality < 64,
            forall|x: u64, y: u64| x < *cardinality && y < *cardinality ==> #[trigger] function.requires((x, y)),
        ensures
            r matches Ok(g) ==> g.h.wf() && g.h.n == *cardinality && hypergroup(g.h.table(), g.h.n as nat)
                && forall|x: int, y: int| 0 <= x < *cardinality && 0 <= y < *cardinality ==> #[trigger] function.ensures(
                    (x as u64, y as u64),
                    entry(g.h.table(), g.h.n as nat, x, y),
                ),
            r matches Err(e) ==> e == HsError::MalformedTable || e == HsError::PreconditionViolated,
            r matches Err(e) ==> (e == HsError::MalformedTable ==> exists|x: u64, y: u64, v: u64|
                x < *cardinality && y < *cardinality && #[trigger] function.ensures((x, y), v) && (v == 0
                    || v >= base(*cardinality as nat))),
            r matches Err(e) ==> (e == HsError::PreconditionViolated ==> exists|t: Seq<u64>|
                #[trigger] table_wf(t, *cardinality as nat) && !hypergroup(t, *cardinality as nat) && forall|
                    x: int,
                    y: int,
                |
                    0 <= x < *cardinality && 0 <= y < *cardinality ==> #[trigger] function.ensures(
                        (x as u64, y as u64),
                        entry(t, *cardinality as nat, x, y),
                    )),
    {
        let n = *cardinality;
        let mut rows: Vec<Vec<u64>> = Vec::new();
        let mut x: u64 = 0;
        while x < n
            invariant
                1 <= n < 64,
                forall|a: u64, b: u64| a < n && b < n ==> #[trigger] function.requires((a, b)),
                x <= n,
                rows.len() == x,
                forall|i: int| 0 <= i < x ==> (#[trigger] rows@[i]).len() == n,
                forall|i: int, j: int| 0 <= i < x && 0 <= j < n ==> #[trigger] function.ensures((i as u64, j as u64), rows@[i]@[j]),
            decreases n - x,
        {
            let mut row: Vec<u64> = Vec::new();
            let mut y: u64 = 0;
            while y < n
                invariant
                    1 <= n < 64,
                    forall|a: u64, b: u64| a < n && b < n ==> #[trigger] function.requires((a, b)),
                    x < n,
                    y <= n,
                    row.len() == y,
                    forall|j: int| 0 <= j < y ==> #[trigger] function.ensures((x, j as u64), row@[j]),
                decreases n - y,
            {
                let v = function(x, y);
                row.push(v);
                y = y + 1;
            }
            rows.push(row);
            proof {
                assert forall|i: int, j: int| 0 <= i < x + 1 && 0 <= j < n implies #[trigger] function.ensures((i as u64, j as u64), rows@[i]@[j]) by {
                    if i == x {
                        assert(function.ensures((x, j as u64), rows@[i]@[j]));
                    }
                }
            }
            x = x + 1;
        }
        match HyperGroupoidMat::new_from_matrix(&rows) {
            Ok(h) => {
                if h.is_hypergroup() {
                    proof {
                        assert forall|a: int, b: int| 0 <= a < n && 0 <= b < n implies #[trigger] function.ensures(
                            (a as u64, b as u64),
                            entry(h.table(), h.n as nat, a, b),
                        ) by {
                            assert(entry(h.table(), h.n as nat, a, b) == rows@[a]@[b]);
                        }
                    }
                    Ok(HyperGroup { h })
                } else {
                    proof {
                        assert forall|a: int, b: int| 0 <= a < n && 0 <= b < n implies #[trigger] function.ensures(
                            (a as u64, b as u64),
                            entry(h.table(), h.n as nat, a, b),
                        ) by {
                            assert(entry(h.table(), h.n as nat, a, b) == rows@[a]@[b]);
                        }
                        assert(table_wf(h.table(), n as nat));
                    }
                    Err(HsError::PreconditionViolated)
                }
            },
            Err(e) => {
                proof {
                    let rs = rows@.map_values(|row: Vec<u64>| row@);
                    assert(!square_table(rs));
                    assert(rs.len() == n);
                    assert forall|i: int| 0 <= i < rs.len() implies (#[trigger] rs[i]).len() == rs.len() by {
                        assert(rs[i] == rows@[i]@);
                    }
                    let (i, j) = choose|i: int, j: int|
                        0 <= i < rs.len() && 0 <= j < rs.len() && !(0 < #[trigger] rs[i][j] && rs[i][j] < base(rs.len()));
                    assert(rs[i][j] == rows@[i]@[j]);
                    assert(function.ensures((i as u64, j as u64), rows@[i]@[j]));
                }
                Err(e)
            },
        }
    }

    /// Whether b\a meeting c/d always makes a o d meet b o c.
    pub fn is_transposition(&self) -> (r: bool)
        requires
            self.h.wf(),
        ensures
            r == transposition(self.h.table(), self.h.n as nat),
    {
        let n = self.h.n;
        let ghost t = self.h.table();
        let mut a: u64 = 0;
        while a < n
            invariant
                self.h.wf(),
                n == self.h.n,
                t == self.h.table(),
                a <= n,
                forall|i: int, j: int, k: int, l: int|
                    0 <= i < a && 0 <= j < n && 0 <= k < n && 0 <= l < n ==> #[trigger] transposition_at(t, n as nat, i, j, k, l),
            decreases n - a,
        {
            let mut b: u64 = 0;
            while b < n
                invariant
                    self.h.wf(),
                    n == self.h.n,
                    t == self.h.table(),
                    a < n,
                    b <= n,
                    forall|i: int, j: int, k: int, l: int|
                        0 <= i < a && 0 <= j < n && 0 <= k < n && 0 <= l < n ==> #[trigger] transposition_at(t, n as nat, i, j, k, l),
                    forall|j: int, k: int, l: int|
                        0 <= j < b && 0 <= k < n && 0 <= l < n ==> #[trigger] transposition_at(t, n as nat, a as int, j, k, l),
                decreases n - b,
            {
                let sa: u64 = 1u64 << a;
                let sb: u64 = 1u64 << b;
                let ldiv = self.h.left_division(&sa, &sb);
                let mut c: u64 = 0;
                while c < n
                    invariant
                        self.h.wf(),
                        n == self.h.n,
                        t == self.h.table(),
                        a < n,
                        b < n,
                        c <= n,
                        sa == singleton(a as int),
                        sb == singleton(b as int),
                        ldiv == left_div_upto(t, n as nat, sa, sb, n as int),
                        forall|i: int, j: int, k: int, l: int|
                            0 <= i < a && 0 <= j < n && 0 <= k < n && 0 <= l < n ==> #[trigger] transposition_at(t, n as nat, i, j, k, l),
                        forall|j: int, k: int, l: int|
                            0 <= j < b && 0 <= k < n && 0 <= l < n ==> #[trigger] transposition_at(t, n as nat, a as int, j, k, l),
                        forall|k: int, l: int|
                            0 <= k < c && 0 <= l < n ==> #[trigger] transposition_at(t, n as nat, a as int, b as int, k, l),
                    decreases n - c,
                {
                    let sc: u64 = 1u64 << c;
                    let bc = self.h.mul_by_representation(&sb, &sc);
                    let mut d: u64 = 0;
                    while d < n
                        invariant
                            self.h.wf(),
                            n == self.h.n,
                            t == self.h.table(),
                            a < n,
                            b < n,
                            c < n,
                            d <= n,
                            sa == singleton(a as int),
                            sb == singleton(b as int),
                            sc == singleton(c as int),
                            ldiv == left_div_upto(t, n as nat, sa, sb, n as int),
                            bc == mul_spec(t, n as nat, sb, sc),
                            forall|i: int, j: int, k: int, l: int|
                                0 <= i < a && 0 <= j < n && 0 <= k < n && 0 <= l < n ==> #[trigger] transposition_at(t, n as nat, i, j, k, l),
                            forall|j: int, k: int, l: int|
                                0 <= j < b && 0 <= k < n && 0 <= l < n ==> #[trigger] transposition_at(t, n as nat, a as int, j, k, l),
                            forall|k: int, l: int|
                                0 <= k < c && 0 <= l < n ==> #[trigger] transposition_at(t, n as nat, a as int, b as int, k, l),
                            forall|l: int| 0 <= l < d ==> #[trigger] transposition_at(t, n as nat, a as int, b as int, c as int, l),
                        decreases n - d,
                    {
                        let sd: u64 = 1u64 << d;
                        let rdiv = self.h.right_division(&sc, &sd);
                        if ldiv & rdiv != 0 {
                            let ad = self.h.mul_by_representation(&sa, &sd);
                            if ad & bc == 0 {
                                assert(!transposition_at(t, n as nat, a as int, b as int, c as int, d as int));
                                return false;
                            }
                        }
                        d = d + 1;
                    }
                    c = c + 1;
                }
                b = b + 1;
            }
            a = a + 1;
        }
        true
    }
}

} // verus!
