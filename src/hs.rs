//! Hypergroupoids on the carrier {0, ..., n-1}, held as their n x n table of subset masks.
use crate::bits::{bin_value, digits_below, lemma_digits_value, n_to_binary_vec, binary_to_n};
use crate::codec::{
    base, concat_digits, decode_digits, encode_digits, lemma_base_fits, lemma_concat_digits,
    lemma_cube_bounds, lemma_decode_encode, lemma_round_trip, masks_in_carrier, table_of_tag,
    tag_of, valid_tag,
};
use crate::error::HsError;
use crate::relations::{insert_sorted_pair, lemma_sorted_pairs_distinct, pairs_sorted, Relation};
use crate::wide::U1024;
use vstd::arithmetic::div_mod::*;
use vstd::arithmetic::mul::*;
use vstd::arithmetic::power::*;
use vstd::prelude::*;

verus! {

/// Element `i` belongs to the subset `k`.
pub open spec fn member(k: u64, i: int) -> bool {
    0 <= i < 64 && (k >> (i as u64)) & 1u64 == 1u64
}

/// The mask of the one-element subset {i}.
pub open spec fn singleton(i: int) -> u64 {
    1u64 << (i as u64)
}

/// The mask of the whole carrier {0, ..., n-1}.
pub open spec fn full_mask(n: nat) -> u64 {
    ((1u64 << (n as u64)) - 1) as u64
}

/// Position of entry (x, y) in a row-major n x n table.
pub open spec fn cell(n: nat, x: int, y: int) -> int {
    x * n + y
}

/// The product x o y of the table `t`.
pub open spec fn entry(t: Seq<u64>, n: nat, x: int, y: int) -> u64 {
    t[cell(n, x, y)]
}

/// A table of `n * n` non-empty subsets of an `n`-element carrier, 1 <= n < 64.
pub open spec fn table_wf(t: Seq<u64>, n: nat) -> bool {
    &&& 1 <= n < 64
    &&& t.len() == n * n
    &&& masks_in_carrier(t, n)
}

/// Union of the products x o y over the members y of `l` below `b`.
pub open spec fn row_part(t: Seq<u64>, n: nat, x: int, l: u64, b: int) -> u64
    decreases b,
{
    if b <= 0 {
        0
    } else {
        let prev = row_part(t, n, x, l, b - 1);
        if member(l, b - 1) {
            prev | entry(t, n, x, b - 1)
        } else {
            prev
        }
    }
}

/// Union of the products x o y over members x of `k` below `a` and members y of `l`.
pub open spec fn mul_part(t: Seq<u64>, n: nat, k: u64, l: u64, a: int) -> u64
    decreases a,
{
    if a <= 0 {
        0
    } else {
        let prev = mul_part(t, n, k, l, a - 1);
        if member(k, a - 1) {
            prev | row_part(t, n, a - 1, l, n as int)
        } else {
            prev
        }
    }
}

/// The product of two subsets: the union of x o y over their members.
pub open spec fn mul_spec(t: Seq<u64>, n: nat, k: u64, l: u64) -> u64 {
    mul_part(t, n, k, l, n as int)
}

/// (ab)c = a(bc) for all elements a, b, c.
pub open spec fn associative(t: Seq<u64>, n: nat) -> bool {
    forall|a: int, b: int, c: int|
        0 <= a < n && 0 <= b < n && 0 <= c < n ==> #[trigger] assoc_at(t, n, a, b, c)
}

/// (ab)c = a(bc) for the elements a, b, c.
pub open spec fn assoc_at(t: Seq<u64>, n: nat, a: int, b: int, c: int) -> bool {
    mul_spec(t, n, mul_spec(t, n, singleton(a), singleton(b)), singleton(c)) == mul_spec(
        t,
        n,
        singleton(a),
        mul_spec(t, n, singleton(b), singleton(c)),
    )
}

/// ab = ba for all elements a, b.
pub open spec fn commutative(t: Seq<u64>, n: nat) -> bool {
    forall|a: int, b: int|
        0 <= a < n && 0 <= b < n ==> #[trigger] mul_spec(t, n, singleton(a), singleton(b))
            == mul_spec(t, n, singleton(b), singleton(a))
}

/// Union of the entries of row `x` in the first `b` columns.
pub open spec fn row_or(t: Seq<u64>, n: nat, x: int, b: int) -> u64
    decreases b,
{
    if b <= 0 {
        0
    } else {
        row_or(t, n, x, b - 1) | entry(t, n, x, b - 1)
    }
}

/// Union of the entries of column `y` in the first `b` rows.
pub open spec fn col_or(t: Seq<u64>, n: nat, y: int, b: int) -> u64
    decreases b,
{
    if b <= 0 {
        0
    } else {
        col_or(t, n, y, b - 1) | entry(t, n, b - 1, y)
    }
}

/// xH = H = Hx for every element x: every row and every column covers the carrier.
pub open spec fn reproductive(t: Seq<u64>, n: nat) -> bool {
    forall|x: int|
        0 <= x < n ==> #[trigger] row_or(t, n, x, n as int) == full_mask(n) && col_or(
            t,
            n,
            x,
            n as int,
        ) == full_mask(n)
}

/// Associative and reproductive.
pub open spec fn hypergroup(t: Seq<u64>, n: nat) -> bool {
    associative(t, n) && reproductive(t, n)
}

/// Index arithmetic of a row-major table.
pub proof fn lemma_cell(n: nat, x: int, y: int)
    requires
        0 <= x < n,
        0 <= y < n,
    ensures
        0 <= cell(n, x, y) < n * n,
        cell(n, x, y) + n - y <= n * n,
{
    assert(x * n + y < n * n) by (nonlinear_arith)
        requires
            0 <= x < n,
            0 <= y < n,
    ;
    assert(x * n + n <= n * n) by (nonlinear_arith)
        requires
            0 <= x < n,
    ;
    assert(0 <= x * n) by (nonlinear_arith)
        requires
            0 <= x,
            n >= 0,
    ;
}

/// Whether element `i` belongs to the subset `k`.
pub fn has_bit(k: u64, i: u64) -> (r: bool)
    requires
        i < 64,
    ensures
        r == member(k, i as int),
{
    (k >> i) & 1 == 1
}

/// A hypergroupoid: a carrier of `n` elements and its table of products.
#[derive(Debug, Clone, PartialEq, Eq)]
pub struct HyperGroupoidMat {
    /// The number of elements.
    pub n: u64,
    /// Row-major table: entry `x * n + y` is the mask of x o y.
    pub hyper_composition: Vec<u64>,
}

impl HyperGroupoidMat {
    /// The table as a sequence.
    pub open spec fn table(&self) -> Seq<u64> {
        self.hyper_composition@
    }

    /// A valid table on 1 <= n < 64 elements.
    pub open spec fn wf(&self) -> bool {
        table_wf(self.table(), self.n as nat)
    }

    /// The table given by its rows, checked: it must be square, with 1 <= n < 64 rows,
    /// and every entry a non-empty subset of the carrier.
    pub fn new_from_matrix(matrix: &Vec<Vec<u64>>) -> (r: Result<HyperGroupoidMat, HsError>)
        ensures
            r is Ok <==> square_table(matrix@.map_values(|row: Vec<u64>| row@)),
            r matches Ok(h) ==> h.wf() && h.n == matrix.len() && forall|x: int, y: int|
                0 <= x < h.n && 0 <= y < h.n ==> #[trigger] entry(h.table(), h.n as nat, x, y)
                    == matrix@[x]@[y],
            r matches Err(e) ==> e == HsError::MalformedTable,
    {
        let ghost rows = matrix@.map_values(|row: Vec<u64>| row@);
        let n = matrix.len();
        if n == 0 || n >= 64 {
            return Err(HsError::MalformedTable);
        }
        let nn = n as u64;
        proof {
            lemma_base_fits(nn as nat);
            vstd::bits::lemma_u64_pow2_no_overflow(nn as nat);
            vstd::bits::lemma_u64_shl_is_mul(1, nn);
            vstd::arithmetic::power2::lemma_pow2(nn as nat);
        }
        let bound: u64 = 1u64 << nn;
        let mut t: Vec<u64> = Vec::new();
        let mut x: usize = 0;
        while x < n
            invariant
                n == matrix.len(),
                1 <= n < 64,
                nn == n,
                bound == base(n as nat),
                rows == matrix@.map_values(|row: Vec<u64>| row@),
                x <= n,
                t.len() == x * n,
                forall|i: int| 0 <= i < x ==> (#[trigger] rows[i]).len() == n,
                forall|i: int, j: int|
                    0 <= i < x && 0 <= j < n ==> #[trigger] t@[cell(n as nat, i, j)] == rows[i][j]
                        && 0 < rows[i][j] < base(n as nat),
            decreases n - x,
        {
            let row = &matrix[x];
            assert(rows[x as int] == row@);
            if row.len() != n {
                return Err(HsError::MalformedTable);
            }
            let mut y: usize = 0;
            while y < n
                invariant
                    n == matrix.len(),
                    1 <= n < 64,
                    x < n,
                    bound == base(n as nat),
                    rows == matrix@.map_values(|row: Vec<u64>| row@),
                    rows[x as int] == row@,
                    row.len() == n,
                    y <= n,
                    t.len() == x * n + y,
                    forall|i: int| 0 <= i < x ==> (#[trigger] rows[i]).len() == n,
                    forall|i: int, j: int|
                        0 <= i < x && 0 <= j < n ==> #[trigger] t@[cell(n as nat, i, j)]
                            == rows[i][j] && 0 < rows[i][j] < base(n as nat),
                    forall|j: int|
                        0 <= j < y ==> #[trigger] t@[cell(n as nat, x as int, j)] == rows[x as int][j]
                            && 0 < rows[x as int][j] < base(n as nat),
                decreases n - y,
            {
                let v = row[y];
                if v == 0 || v >= bound {
                    return Err(HsError::MalformedTable);
                }
                proof {
                    lemma_cell(n as nat, x as int, y as int);
                    assert forall|i: int, j: int| 0 <= i < x && 0 <= j < n implies cell(
                        n as nat,
                        i,
                        j,
                    ) < x * n by {
                        assert(i * n + j < x * n) by (nonlinear_arith)
                            requires
                                0 <= i < x,
                                0 <= j < n,
                        ;
                    }
                }
                t.push(v);
                y = y + 1;
            }
            proof {
                assert((x + 1) * n == x * n + n) by (nonlinear_arith);
                assert forall|i: int, j: int| 0 <= i < x + 1 && 0 <= j < n implies #[trigger] t@[cell(
                    n as nat,
                    i,
                    j,
                )] == rows[i][j] && 0 < rows[i][j] < base(n as nat) by {
                    if i < x {
                    } else {
                        assert(t@[cell(n as nat, x as int, j)] == rows[x as int][j]);
                    }
                }
            }
            x = x + 1;
        }
        let h = HyperGroupoidMat { n: nn, hyper_composition: t };
        proof {
            assert forall|i: int, j: int| 0 <= i < rows.len() && 0 <= j < rows.len() implies 0
                < #[trigger] rows[i][j] && rows[i][j] < base(rows.len()) by {
                assert(t@[cell(n as nat, i, j)] == rows[i][j]);
            }
            assert forall|k: int| 0 <= k < h.table().len() implies 0 < #[trigger] h.table()[k] && h.table()[k] < base(nn as nat) by {
                let i = k / n as int;
                let j = k % n as int;
                lemma_fundamental_div_mod(k, n as int);
                lemma_div_pos_is_pos(k, n as int);
                lemma_mod_pos_bound(k, n as int);
                assert(i < n) by {
                    lemma_div_is_ordered(k, (n * n) as int, n as int);
                    lemma_div_by_multiple(n as int, n as int);
                    if k / (n as int) >= n {
                        assert(false) by (nonlinear_arith)
                            requires
                                k == n * (k / (n as int)) + k % (n as int),
                                k / (n as int) >= n,
                                k < n * n,
                                k % (n as int) >= 0,
                                n >= 1,
                        ;
                    }
                }
                lemma_mul_is_commutative(i, n as int);
                assert(cell(n as nat, i, j) == k);
            }
        }
        Ok(h)
    }
}

/// `rows` is a square table of 1 <= n < 64 rows whose entries are non-empty subsets
/// of the carrier.
pub open spec fn square_table(rows: Seq<Seq<u64>>) -> bool {
    &&& 1 <= rows.len() < 64
    &&& forall|i: int| 0 <= i < rows.len() ==> (#[trigger] rows[i]).len() == rows.len()
    &&& forall|i: int, j: int|
        0 <= i < rows.len() && 0 <= j < rows.len() ==> 0 < #[trigger] rows[i][j] && rows[i][j]
            < base(rows.len())
}

impl HyperGroupoidMat {
    /// The hypergroupoid that `tag` encodes on `cardinality` elements; an invalid tag is
    /// refused.
    pub fn new_from_tag(tag: &u128, cardinality: &u64) -> (r: Result<HyperGroupoidMat, HsError>)
        requires
            1 <= *cardinality < 64,
        ensures
            r is Ok <==> valid_tag(*tag as nat, *cardinality as nat),
            r matches Ok(h) ==> h.wf() && h.n == *cardinality && h.table() == table_of_tag(
                *tag as nat,
                *cardinality as nat,
            ),
            r matches Err(e) ==> e == HsError::InvalidTag,
    {
        let n = *cardinality;
        proof {
            lemma_cube_bounds(n as nat);
        }
        let d = n_to_binary_vec(tag, &(n * n * n));
        proof {
            lemma_digits_value(*tag as nat, d.len() as nat);
            lemma_small_mod(*tag as nat, pow(2, d.len() as nat) as nat);
        }
        match decode_digits(&d, n) {
            Ok(t) => {
                proof {
                    lemma_round_trip(seq![], *tag as nat, n as nat);
                }
                Ok(HyperGroupoidMat { n, hyper_composition: t })
            },
            Err(e) => Err(e),
        }
    }

    /// The hypergroupoid that the 1024-bit `tag` encodes on `cardinality` elements.
    pub fn new_from_tag_u1024(tag: &U1024, cardinality: &u64) -> (r: Result<
        HyperGroupoidMat,
        HsError,
    >)
        requires
            1 <= *cardinality <= 10,
        ensures
            r is Ok <==> valid_tag(tag.value(), *cardinality as nat),
            r matches Ok(h) ==> h.wf() && h.n == *cardinality && h.table() == table_of_tag(
                tag.value(),
                *cardinality as nat,
            ),
            r matches Err(e) ==> e == HsError::InvalidTag,
    {
        let n = *cardinality;
        let d = tag.to_digits();
        proof {
            tag.lemma_digits_of();
            assert(n * n * n <= 1000) by (nonlinear_arith)
                requires
                    n <= 10,
            ;
        }
        match decode_digits(&d, n) {
            Ok(t) => {
                proof {
                    lemma_round_trip(seq![], tag.value(), n as nat);
                }
                Ok(HyperGroupoidMat { n, hyper_composition: t })
            },
            Err(e) => Err(e),
        }
    }

    /// The tag of the table; it fits in 128 bits for up to 5 elements.
    pub fn get_integer_tag(&self) -> (r: u128)
        requires
            self.wf(),
            self.n <= 5,
        ensures
            r == tag_of(self.table(), self.n as nat),
    {
        let d = encode_digits(&self.hyper_composition, self.n);
        proof {
            self.lemma_tag_fits();
            assert(self.n * self.n * self.n <= 125) by (nonlinear_arith)
                requires
                    self.n <= 5,
            ;
            lemma_pow_increases(2, (self.n * self.n * self.n) as nat, 128);
            crate::bits::lemma_pow2_128();
        }
        binary_to_n(&d)
    }

    /// The 1024-bit tag of the table; it fits for up to 10 elements.
    pub fn get_integer_tag_u1024(&self) -> (r: U1024)
        requires
            self.wf(),
            self.n <= 10,
        ensures
            r.value() == tag_of(self.table(), self.n as nat),
    {
        let d = encode_digits(&self.hyper_composition, self.n);
        proof {
            self.lemma_tag_fits();
            assert(self.n * self.n * self.n <= 1000) by (nonlinear_arith)
                requires
                    self.n <= 10,
            ;
            lemma_pow_increases(2, (self.n * self.n * self.n) as nat, 1024);
            lemma_small_mod(tag_of(self.table(), self.n as nat), pow(2, 1024) as nat);
        }
        U1024::from_binary_vec(&d)
    }

    /// The digits that encode the table read as its tag, below 2^(n^3).
    proof fn lemma_tag_fits(&self)
        requires
            self.wf(),
        ensures
            digits_below(concat_digits(self.table(), self.n as nat), 2),
            bin_value(concat_digits(self.table(), self.n as nat)) == tag_of(self.table(), self.n as nat),
            tag_of(self.table(), self.n as nat) < pow(2, self.n as nat * self.n as nat * self.n as nat),
    {
        lemma_concat_digits(self.table(), self.n as nat);
        lemma_decode_encode(self.table(), self.n as nat);
    }

    /// The masks of the one-element subsets, in order of their element.
    pub fn get_singleton(&self) -> (r: Vec<u64>)
        requires
            self.n < 64,
        ensures
            r@ == Seq::new(self.n as nat, |i: int| singleton(i)),
    {
        let mut r: Vec<u64> = Vec::new();
        let mut i: u64 = 0;
        while i < self.n
            invariant
                self.n < 64,
                i <= self.n,
                r@ == Seq::new(i as nat, |j: int| singleton(j)),
            decreases self.n - i,
        {
            r.push(1u64 << i);
            i = i + 1;
            assert(r@ =~= Seq::new(i as nat, |j: int| singleton(j)));
        }
        r
    }

    /// Product x o y read from the table.
    pub fn get_entry(&self, x: u64, y: u64) -> (r: u64)
        requires
            self.wf(),
            x < self.n,
            y < self.n,
        ensures
            r == entry(self.table(), self.n as nat, x as int, y as int),
    {
        self.get(x, y)
    }

    fn get(&self, x: u64, y: u64) -> (r: u64)
        requires
            self.wf(),
            x < self.n,
            y < self.n,
        ensures
            r == entry(self.table(), self.n as nat, x as int, y as int),
    {
        proof {
            lemma_cell(self.n as nat, x as int, y as int);
            lemma_cube_bounds(self.n as nat);
            assert(x * self.n <= x * self.n + y);
        }
        self.hyper_composition[(x * self.n + y) as usize]
    }

    /// The product of two subsets given by their masks: the union of x o y over the
    /// members x of `int_k` and y of `int_l`.
    pub fn mul_by_representation(&self, int_k: &u64, int_l: &u64) -> (r: u64)
        requires
            self.wf(),
        ensures
            r == mul_spec(self.table(), self.n as nat, *int_k, *int_l),
    {
        let n = self.n;
        let mut acc: u64 = 0;
        let mut a: u64 = 0;
        while a < n
            invariant
                self.wf(),
                n == self.n,
                a <= n,
                acc == mul_part(self.table(), n as nat, *int_k, *int_l, a as int),
            decreases n - a,
        {
            if has_bit(*int_k, a) {
                let mut row: u64 = 0;
                let mut b: u64 = 0;
                while b < n
                    invariant
                        self.wf(),
                        n == self.n,
                        a < n,
                        b <= n,
                        row == row_part(self.table(), n as nat, a as int, *int_l, b as int),
                    decreases n - b,
                {
                    if has_bit(*int_l, b) {
                        row = row | self.get(a, b);
                    }
                    b = b + 1;
                }
                acc = acc | row;
            }
            a = a + 1;
        }
        acc
    }

    /// Whether (ab)c = a(bc) for all elements a, b, c.
    pub fn is_associative(&self) -> (r: bool)
        requires
            self.wf(),
        ensures
            r == associative(self.table(), self.n as nat),
    {
        let n = self.n;
        let mut a: u64 = 0;
        while a < n
            invariant
                self.wf(),
                n == self.n,
                a <= n,
                forall|i: int, j: int, k: int|
                    0 <= i < a && 0 <= j < n && 0 <= k < n ==> #[trigger] assoc_at(self.table(), n as nat, i, j, k),
            decreases n - a,
        {
            let mut b: u64 = 0;
            while b < n
                invariant
                    self.wf(),
                    n == self.n,
                    a < n,
                    b <= n,
                    forall|i: int, j: int, k: int|
                        0 <= i < a && 0 <= j < n && 0 <= k < n ==> #[trigger] assoc_at(self.table(), n as nat, i, j, k),
                    forall|j: int, k: int|
                        0 <= j < b && 0 <= k < n ==> #[trigger] assoc_at(self.table(), n as nat, a as int, j, k),
                decreases n - b,
            {
                let mut c: u64 = 0;
                while c < n
                    invariant
                        self.wf(),
                        n == self.n,
                        a < n,
                        b < n,
                        c <= n,
                        forall|i: int, j: int, k: int|
                            0 <= i < a && 0 <= j < n && 0 <= k < n ==> #[trigger] assoc_at(self.table(), n as nat, i, j, k),
                        forall|j: int, k: int|
                            0 <= j < b && 0 <= k < n ==> #[trigger] assoc_at(self.table(), n as nat, a as int, j, k),
                        forall|k: int| 0 <= k < c ==> #[trigger] assoc_at(self.table(), n as nat, a as int, b as int, k),
                    decreases n - c,
                {
                    let sa: u64 = 1u64 << a;
                    let sb: u64 = 1u64 << b;
                    let sc: u64 = 1u64 << c;
                    let ab = self.mul_by_representation(&sa, &sb);
                    let ab_c = self.mul_by_representation(&ab, &sc);
                    let bc = self.mul_by_representation(&sb, &sc);
                    let a_bc = self.mul_by_representation(&sa, &bc);
                    if ab_c != a_bc {
                        assert(!assoc_at(self.table(), n as nat, a as int, b as int, c as int));
                        return false;
                    }
                    c = c + 1;
                }
                b = b + 1;
            }
            a = a + 1;
        }
        true
    }

    /// Whether every row and every column of the table covers the whole carrier.
    pub fn is_reproductive(&self) -> (r: bool)
        requires
            self.wf(),
        ensures
            r == reproductive(self.table(), self.n as nat),
    {
        let n = self.n;
        proof {
            vstd::bits::lemma_u64_pow2_no_overflow(n as nat);
            vstd::bits::lemma_u64_shl_is_mul(1, n);
        }
        let full: u64 = (1u64 << n) - 1;
        let mut x: u64 = 0;
        while x < n
            invariant
                self.wf(),
                n == self.n,
                full == full_mask(n as nat),
                x <= n,
                forall|i: int|
                    0 <= i < x ==> #[trigger] row_or(self.table(), n as nat, i, n as int) == full_mask(n as nat)
                        && col_or(self.table(), n as nat, i, n as int) == full_mask(n as nat),
            decreases n - x,
        {
            let mut row: u64 = 0;
            let mut col: u64 = 0;
            let mut y: u64 = 0;
            while y < n
                invariant
                    self.wf(),
                    n == self.n,
                    x < n,
                    y <= n,
                    row == row_or(self.table(), n as nat, x as int, y as int),
                    col == col_or(self.table(), n as nat, x as int, y as int),
                decreases n - y,
            {
                row = row | self.get(x, y);
                col = col | self.get(y, x);
                y = y + 1;
            }
            if row != full || col != full {
                return false;
            }
            x = x + 1;
        }
        true
    }

    /// Whether the table is a hypergroup: associative and reproductive.
    pub fn is_hypergroup(&self) -> (r: bool)
        requires
            self.wf(),
        ensures
            r == hypergroup(self.table(), self.n as nat),
    {
        self.is_associative() && self.is_reproductive()
    }

    /// Whether ab = ba for all elements a, b.
    pub fn is_commutative(&self) -> (r: bool)
        requires
            self.wf(),
        ensures
            r == commutative(self.table(), self.n as nat),
    {
        let n = self.n;
        let mut a: u64 = 0;
        while a < n
            invariant
                self.wf(),
                n == self.n,
                a <= n,
                forall|i: int, j: int|
                    0 <= i < a && 0 <= j < n ==> #[trigger] mul_spec(self.table(), n as nat, singleton(i), singleton(j))
                        == mul_spec(self.table(), n as nat, singleton(j), singleton(i)),
            decreases n - a,
        {
            let mut b: u64 = 0;
            while b < n
                invariant
                    self.wf(),
                    n == self.n,
                    a < n,
                    b <= n,
                    forall|i: int, j: int|
                        0 <= i < a && 0 <= j < n ==> #[trigger] mul_spec(self.table(), n as nat, singleton(i), singleton(j))
                            == mul_spec(self.table(), n as nat, singleton(j), singleton(i)),
                    forall|j: int|
                        0 <= j < b ==> #[trigger] mul_spec(self.table(), n as nat, singleton(a as int), singleton(j))
                            == mul_spec(self.table(), n as nat, singleton(j), singleton(a as int)),
                decreases n - b,
            {
                let sa: u64 = 1u64 << a;
                let sb: u64 = 1u64 << b;
                if self.mul_by_representation(&sa, &sb) != self.mul_by_representation(&sb, &sa) {
                    assert(mul_spec(self.table(), n as nat, singleton(a as int), singleton(b as int))
                        != mul_spec(self.table(), n as nat, singleton(b as int), singleton(a as int)));
                    return false;
                }
                b = b + 1;
            }
            a = a + 1;
        }
        true
    }
}

/// `m` is the mask of a single element of an `n`-element carrier.
pub open spec fn single_in(m: u64, n: nat) -> bool {
    exists|i: int| 0 <= i < n && m == #[trigger] singleton(i)
}

/// Every product e o x contains x.
pub open spec fn left_identity(t: Seq<u64>, n: nat, e: int) -> bool {
    forall|x: int| 0 <= x < n ==> #[trigger] member(entry(t, n, e, x), x)
}

/// Every product x o e contains x.
pub open spec fn right_identity(t: Seq<u64>, n: nat, e: int) -> bool {
    forall|x: int| 0 <= x < n ==> #[trigger] member(entry(t, n, x, e), x)
}

/// Every product x o s is a single element (column `s`).
pub open spec fn left_scalar(t: Seq<u64>, n: nat, s: int) -> bool {
    forall|x: int| 0 <= x < n ==> #[trigger] single_in(entry(t, n, x, s), n)
}

/// Every product s o x is a single element (row `s`).
pub open spec fn right_scalar(t: Seq<u64>, n: nat, s: int) -> bool {
    forall|x: int| 0 <= x < n ==> #[trigger] single_in(entry(t, n, s, x), n)
}

/// Which elements a collector keeps.
#[derive(Debug, Clone, Copy, PartialEq, Eq, Structural)]
pub enum ElementKind {
    LeftIdentity,
    RightIdentity,
    Identity,
    Scalar,
    ScalarIdentity,
}

/// Element `i` is of the given kind.
pub open spec fn element_is(t: Seq<u64>, n: nat, kind: ElementKind, i: int) -> bool {
    match kind {
        ElementKind::LeftIdentity => left_identity(t, n, i),
        ElementKind::RightIdentity => right_identity(t, n, i),
        ElementKind::Identity => left_identity(t, n, i) && right_identity(t, n, i),
        ElementKind::Scalar => left_scalar(t, n, i) && right_scalar(t, n, i),
        ElementKind::ScalarIdentity => left_scalar(t, n, i) && right_scalar(t, n, i)
            && left_identity(t, n, i) && right_identity(t, n, i),
    }
}

/// The masks of the elements below `m` of the given kind, in order.
pub open spec fn elements_of_kind(t: Seq<u64>, n: nat, kind: ElementKind, m: int) -> Seq<u64>
    decreases m,
{
    if m <= 0 {
        seq![]
    } else {
        let p = elements_of_kind(t, n, kind, m - 1);
        if element_is(t, n, kind, m - 1) {
            p.push(singleton(m - 1))
        } else {
            p
        }
    }
}

/// Element `z` lies in a product x o y with x in `k` and y in `l`.
pub open spec fn in_some_product(t: Seq<u64>, n: nat, k: u64, l: u64, z: int) -> bool {
    exists|x: int, y: int|
        #![trigger member(k, x), member(l, y)]
        0 <= x < n && 0 <= y < n && member(k, x) && member(l, y) && member(entry(t, n, x, y), z)
}

proof fn lemma_row_part_members(t: Seq<u64>, n: nat, x: int, l: u64, b: int, z: int)
    requires
        0 <= z < 64,
        0 <= b,
    ensures
        member(row_part(t, n, x, l, b), z) <==> exists|y: int|
            0 <= y < b && #[trigger] member(l, y) && member(entry(t, n, x, y), z),
    decreases b,
{
    if b <= 0 {
        crate::perm::lemma_member_zero(z as u64);
    } else {
        lemma_row_part_members(t, n, x, l, b - 1, z);
        if member(l, b - 1) {
            crate::perm::lemma_member_or(row_part(t, n, x, l, b - 1), entry(t, n, x, b - 1), z as u64);
        }
        if exists|y: int| 0 <= y < b && #[trigger] member(l, y) && member(entry(t, n, x, y), z) {
            let y = choose|y: int| 0 <= y < b && #[trigger] member(l, y) && member(entry(t, n, x, y), z);
            if y < b - 1 {
                assert(exists|y2: int| 0 <= y2 < b - 1 && #[trigger] member(l, y2) && member(entry(t, n, x, y2), z));
            }
        }
    }
}

proof fn lemma_mul_part_members(t: Seq<u64>, n: nat, k: u64, l: u64, a: int, z: int)
    requires
        0 <= z < 64,
        0 <= a,
    ensures
        member(mul_part(t, n, k, l, a), z) <==> exists|x: int, y: int|
            #![trigger member(k, x), member(l, y)]
            0 <= x < a && 0 <= y < n && member(k, x) && member(l, y) && member(entry(t, n, x, y), z),
    decreases a,
{
    if a <= 0 {
        crate::perm::lemma_member_zero(z as u64);
    } else {
        lemma_mul_part_members(t, n, k, l, a - 1, z);
        lemma_row_part_members(t, n, a - 1, l, n as int, z);
        if member(k, a - 1) {
            crate::perm::lemma_member_or(mul_part(t, n, k, l, a - 1), row_part(t, n, a - 1, l, n as int), z as u64);
        }
        if exists|x: int, y: int|
            #![trigger member(k, x), member(l, y)]
            0 <= x < a && 0 <= y < n && member(k, x) && member(l, y) && member(entry(t, n, x, y), z) {
            let (x, y) = choose|x: int, y: int|
                #![trigger member(k, x), member(l, y)]
                0 <= x < a && 0 <= y < n && member(k, x) && member(l, y) && member(entry(t, n, x, y), z);
            if x < a - 1 {
                assert(0 <= x < a - 1 && 0 <= y < n && member(k, x) && member(l, y) && member(entry(t, n, x, y), z));
            } else {
                assert(member(l, y) && member(entry(t, n, a - 1, y), z));
            }
        }
        if member(row_part(t, n, a - 1, l, n as int), z) && member(k, a - 1) {
            let y = choose|y: int| 0 <= y < n && #[trigger] member(l, y) && member(entry(t, n, a - 1, y), z);
            assert(0 <= a - 1 < a && 0 <= y < n && member(k, a - 1) && member(l, y) && member(entry(t, n, a - 1, y), z));
        }
        if member(mul_part(t, n, k, l, a - 1), z) {
            let (x, y) = choose|x: int, y: int|
                #![trigger member(k, x), member(l, y)]
                0 <= x < a - 1 && 0 <= y < n && member(k, x) && member(l, y) && member(entry(t, n, x, y), z);
            assert(0 <= x < a && 0 <= y < n && member(k, x) && member(l, y) && member(entry(t, n, x, y), z));
        }
    }
}

/// The product of two subsets holds exactly the elements of the products x o y of
/// their members: it is the union of the pointwise products.
pub proof fn lemma_mul_members(t: Seq<u64>, n: nat, k: u64, l: u64, z: int)
    requires
        0 <= z < 64,
    ensures
        member(mul_spec(t, n, k, l), z) <==> in_some_product(t, n, k, l, z),
{
    lemma_mul_part_members(t, n, k, l, n as int, z);
}

/// Distinct elements have distinct masks.
pub proof fn lemma_singleton_injective(i: u64, j: u64)
    requires
        i < 64,
        j < 64,
        (1u64 << i) == (1u64 << j),
    ensures
        i == j,
{
    assert(i < 64 && j < 64 && (1u64 << i) == (1u64 << j) ==> i == j) by (bit_vector);
}

/// Whether `m` is the mask of a single element of an `n`-element carrier.
pub fn is_single(m: u64, n: u64) -> (r: bool)
    requires
        n < 64,
    ensures
        r == single_in(m, n as nat),
{
    let mut i: u64 = 0;
    while i < n
        invariant
            n < 64,
            i <= n,
            forall|j: int| 0 <= j < i ==> m != #[trigger] singleton(j),
        decreases n - i,
    {
        if m == 1u64 << i {
            assert(m == singleton(i as int));
            return true;
        }
        i = i + 1;
    }
    false
}

/// The element whose mask is `e`.
fn element_index(e: u64, n: u64) -> (r: u64)
    requires
        n < 64,
        single_in(e, n as nat),
    ensures
        r < n,
        e == singleton(r as int),
        forall|i: int| 0 <= i < n && e == #[trigger] singleton(i) ==> i == r,
{
    let mut i: u64 = 0;
    while i < n
        invariant
            n < 64,
            i <= n,
            single_in(e, n as nat),
            forall|j: int| 0 <= j < i ==> e != #[trigger] singleton(j),
        decreases n - i,
    {
        if e == 1u64 << i {
            proof {
                assert forall|j: int| 0 <= j < n && e == #[trigger] singleton(j) implies j == i by {
                    lemma_singleton_injective(j as u64, i);
                }
            }
            return i;
        }
        i = i + 1;
    }
    proof {
        let j = choose|j: int| 0 <= j < n && e == #[trigger] singleton(j);
        assert(e != singleton(j));
    }
    0
}

impl HyperGroupoidMat {
    /// Whether element `e` (an index) is of the given kind.
    fn element_check(&self, kind: ElementKind, e: u64) -> (r: bool)
        requires
            self.wf(),
            e < self.n,
        ensures
            r == element_is(self.table(), self.n as nat, kind, e as int),
    {
        match kind {
            ElementKind::LeftIdentity => self.left_identity_at(e),
            ElementKind::RightIdentity => self.right_identity_at(e),
            ElementKind::Identity => self.left_identity_at(e) && self.right_identity_at(e),
            ElementKind::Scalar => self.left_scalar_at(e) && self.right_scalar_at(e),
            ElementKind::ScalarIdentity => self.left_scalar_at(e) && self.right_scalar_at(e)
                && self.left_identity_at(e) && self.right_identity_at(e),
        }
    }

    fn left_identity_at(&self, e: u64) -> (r: bool)
        requires
            self.wf(),
            e < self.n,
        ensures
            r == left_identity(self.table(), self.n as nat, e as int),
    {
        let mut x: u64 = 0;
        while x < self.n
            invariant
                self.wf(),
                e < self.n,
                x <= self.n,
                forall|j: int| 0 <= j < x ==> #[trigger] member(entry(self.table(), self.n as nat, e as int, j), j),
            decreases self.n - x,
        {
            if !has_bit(self.get(e, x), x) {
                return false;
            }
            x = x + 1;
        }
        true
    }

    fn right_identity_at(&self, e: u64) -> (r: bool)
        requires
            self.wf(),
            e < self.n,
        ensures
            r == right_identity(self.table(), self.n as nat, e as int),
    {
        let mut x: u64 = 0;
        while x < self.n
            invariant
                self.wf(),
                e < self.n,
                x <= self.n,
                forall|j: int| 0 <= j < x ==> #[trigger] member(entry(self.table(), self.n as nat, j, e as int), j),
            decreases self.n - x,
        {
            if !has_bit(self.get(x, e), x) {
                return false;
            }
            x = x + 1;
        }
        true
    }

    fn left_scalar_at(&self, s: u64) -> (r: bool)
        requires
            self.wf(),
            s < self.n,
        ensures
            r == left_scalar(self.table(), self.n as nat, s as int),
    {
        let mut x: u64 = 0;
        while x < self.n
            invariant
                self.wf(),
                s < self.n,
                x <= self.n,
                forall|j: int| 0 <= j < x ==> #[trigger] single_in(entry(self.table(), self.n as nat, j, s as int), self.n as nat),
            decreases self.n - x,
        {
            if !is_single(self.get(x, s), self.n) {
                return false;
            }
            x = x + 1;
        }
        true
    }

    fn right_scalar_at(&self, s: u64) -> (r: bool)
        requires
            self.wf(),
            s < self.n,
        ensures
            r == right_scalar(self.table(), self.n as nat, s as int),
    {
        let mut x: u64 = 0;
        while x < self.n
            invariant
                self.wf(),
                s < self.n,
                x <= self.n,
                forall|j: int| 0 <= j < x ==> #[trigger] single_in(entry(self.table(), self.n as nat, s as int, j), self.n as nat),
            decreases self.n - x,
        {
            if !is_single(self.get(s, x), self.n) {
                return false;
            }
            x = x + 1;
        }
        true
    }

    /// The element whose mask is `e`; a mask that is not a single element of the
    /// carrier is refused.
    pub fn element_of(&self, e: &u64) -> (r: Result<u64, HsError>)
        requires
            self.wf(),
        ensures
            r is Ok <==> single_in(*e, self.n as nat),
            r matches Ok(i) ==> i < self.n && *e == singleton(i as int),
            r matches Err(x) ==> x == HsError::NotASingleton,
    {
        if is_single(*e, self.n) {
            Ok(element_index(*e, self.n))
        } else {
            Err(HsError::NotASingleton)
        }
    }

    /// Whether the element with mask `e` is a left identity: e o x contains x for every x.
    pub fn is_left_identity(&self, e: &u64) -> (r: bool)
        requires
            self.wf(),
            single_in(*e, self.n as nat),
        ensures
            forall|i: int| 0 <= i < self.n && *e == #[trigger] singleton(i) ==> r == left_identity(
                self.table(),
                self.n as nat,
                i,
            ),
    {
        let i = element_index(*e, self.n);
        self.left_identity_at(i)
    }

    /// Whether the element with mask `e` is a right identity: x o e contains x for every x.
    pub fn is_right_identity(&self, e: &u64) -> (r: bool)
        requires
            self.wf(),
            single_in(*e, self.n as nat),
        ensures
            forall|i: int| 0 <= i < self.n && *e == #[trigger] singleton(i) ==> r == right_identity(
                self.table(),
                self.n as nat,
                i,
            ),
    {
        let i = element_index(*e, self.n);
        self.right_identity_at(i)
    }

    /// Whether the element with mask `e` is both a left and a right identity.
    pub fn is_identity(&self, e: &u64) -> (r: bool)
        requires
            self.wf(),
            single_in(*e, self.n as nat),
        ensures
            forall|i: int| 0 <= i < self.n && *e == #[trigger] singleton(i) ==> r == (left_identity(
                self.table(),
                self.n as nat,
                i,
            ) && right_identity(self.table(), self.n as nat, i)),
    {
        self.is_left_identity(e) && self.is_right_identity(e)
    }

    /// Whether every product x o s, for the element with mask `s`, is a single element.
    pub fn is_left_scalar(&self, s: &u64) -> (r: bool)
        requires
            self.wf(),
            single_in(*s, self.n as nat),
        ensures
            forall|i: int| 0 <= i < self.n && *s == #[trigger] singleton(i) ==> r == left_scalar(
                self.table(),
                self.n as nat,
                i,
            ),
    {
        let i = element_index(*s, self.n);
        self.left_scalar_at(i)
    }

    /// Whether every product s o x, for the element with mask `s`, is a single element.
    pub fn is_right_scalar(&self, s: &u64) -> (r: bool)
        requires
            self.wf(),
            single_in(*s, self.n as nat),
        ensures
            forall|i: int| 0 <= i < self.n && *s == #[trigger] singleton(i) ==> r == right_scalar(
                self.table(),
                self.n as nat,
                i,
            ),
    {
        let i = element_index(*s, self.n);
        self.right_scalar_at(i)
    }

    /// The masks of the elements of the given kind, in order.
    pub fn collect_elements(&self, kind: ElementKind) -> (r: Vec<u64>)
        requires
            self.wf(),
        ensures
            r@ == elements_of_kind(self.table(), self.n as nat, kind, self.n as int),
    {
        let mut r: Vec<u64> = Vec::new();
        let mut i: u64 = 0;
        while i < self.n
            invariant
                self.wf(),
                i <= self.n,
                r@ == elements_of_kind(self.table(), self.n as nat, kind, i as int),
            decreases self.n - i,
        {
            if self.element_check(kind, i) {
                r.push(1u64 << i);
            }
            i = i + 1;
        }
        r
    }

    /// The masks of the left identities.
    pub fn collect_left_identity(&self) -> (r: Vec<u64>)
        requires
            self.wf(),
        ensures
            r@ == elements_of_kind(self.table(), self.n as nat, ElementKind::LeftIdentity, self.n as int),
    {
        self.collect_elements(ElementKind::LeftIdentity)
    }

    /// The masks of the right identities.
    pub fn collect_right_identity(&self) -> (r: Vec<u64>)
        requires
            self.wf(),
        ensures
            r@ == elements_of_kind(self.table(), self.n as nat, ElementKind::RightIdentity, self.n as int),
    {
        self.collect_elements(ElementKind::RightIdentity)
    }

    /// The masks of the two-sided identities.
    pub fn collect_identities(&self) -> (r: Vec<u64>)
        requires
            self.wf(),
        ensures
            r@ == elements_of_kind(self.table(), self.n as nat, ElementKind::Identity, self.n as int),
    {
        self.collect_elements(ElementKind::Identity)
    }

    /// The masks of the elements that are left and right scalars.
    pub fn collect_scalars(&self) -> (r: Vec<u64>)
        requires
            self.wf(),
        ensures
            r@ == elements_of_kind(self.table(), self.n as nat, ElementKind::Scalar, self.n as int),
    {
        self.collect_elements(ElementKind::Scalar)
    }

    /// The masks of the scalars that are also identities.
    pub fn collect_scalar_identity(&self) -> (r: Vec<u64>)
        requires
            self.wf(),
        ensures
            r@ == elements_of_kind(self.table(), self.n as nat, ElementKind::ScalarIdentity, self.n as int),
    {
        self.collect_elements(ElementKind::ScalarIdentity)
    }
}

/// `ts` contains every element and the product of any two of its masks.
pub open spec fn closed_under(t: Seq<u64>, n: nat, ts: Set<u64>) -> bool {
    &&& forall|i: int| 0 <= i < n ==> ts.contains(#[trigger] singleton(i))
    &&& forall|a: u64, b: u64|
        ts.contains(a) && ts.contains(b) ==> ts.contains(#[trigger] mul_spec(t, n, a, b))
}

/// `m` lies in every set of masks that holds the elements and is closed under products.
pub open spec fn generated(t: Seq<u64>, n: nat, m: u64) -> bool {
    forall|ts: Set<u64>| #[trigger] closed_under(t, n, ts) ==> ts.contains(m)
}

/// Strictly increasing.
pub open spec fn sorted_strict(s: Seq<u64>) -> bool {
    forall|i: int, j: int| 0 <= i < j < s.len() ==> s[i] < s[j]
}

/// `q` pairs two elements x, y that lie together in one generated mask.
pub open spec fn beta_pair(t: Seq<u64>, n: nat, q: (u64, u64)) -> bool {
    exists|m: u64, x: int, y: int|
        #![trigger member(m, x), member(m, y)]
        0 <= x < n && 0 <= y < n && generated(t, n, m) && member(m, x) && member(m, y) && q == (
            singleton(x),
            singleton(y),
        )
}

/// The union of two subsets of an `n`-element carrier stays in it.
pub proof fn lemma_or_below(a: u64, b: u64, n: u64)
    requires
        n < 64,
        a < (1u64 << n),
        b < (1u64 << n),
    ensures
        a | b < (1u64 << n),
{
    assert(n < 64 && a < (1u64 << n) && b < (1u64 << n) ==> a | b < (1u64 << n)) by (bit_vector);
}

/// Masks of smaller elements are smaller.
pub proof fn lemma_singleton_increasing(i: u64, j: u64)
    requires
        i < j < 64,
    ensures
        (1u64 << i) < (1u64 << j),
{
    assert(i < j && j < 64 ==> (1u64 << i) < (1u64 << j)) by (bit_vector);
}

/// Two to the `n` is `1 << n`.
pub proof fn lemma_base_shl(n: u64)
    requires
        n < 64,
    ensures
        base(n as nat) == (1u64 << n),
{
    vstd::bits::lemma_u64_pow2_no_overflow(n as nat);
    vstd::bits::lemma_u64_shl_is_mul(1, n);
    vstd::arithmetic::power2::lemma_pow2(n as nat);
}

/// Products of subsets stay in the carrier.
pub proof fn lemma_mul_below(t: Seq<u64>, n: nat, k: u64, l: u64)
    requires
        table_wf(t, n),
    ensures
        mul_spec(t, n, k, l) < base(n),
{
    lemma_base_shl(n as u64);
    assert forall|x: int, b: int| 0 <= x < n && 0 <= b <= n implies #[trigger] row_part(t, n, x, l, b) < base(n) by {
        lemma_row_part_below(t, n, x, l, b);
    }
    lemma_mul_part_below(t, n, k, l, n as int);
}

proof fn lemma_row_part_below(t: Seq<u64>, n: nat, x: int, l: u64, b: int)
    requires
        table_wf(t, n),
        0 <= x < n,
        0 <= b <= n,
    ensures
        row_part(t, n, x, l, b) < base(n),
    decreases b,
{
    lemma_base_shl(n as u64);
    lemma_base_fits(n);
    if b > 0 {
        lemma_row_part_below(t, n, x, l, b - 1);
        lemma_cell(n, x, b - 1);
        assert(t[cell(n, x, b - 1)] < base(n));
        lemma_or_below(row_part(t, n, x, l, b - 1), entry(t, n, x, b - 1), n as u64);
    }
}

proof fn lemma_mul_part_below(t: Seq<u64>, n: nat, k: u64, l: u64, a: int)
    requires
        table_wf(t, n),
        0 <= a <= n,
        forall|x: int, b: int| 0 <= x < n && 0 <= b <= n ==> #[trigger] row_part(t, n, x, l, b) < base(n),
    ensures
        mul_part(t, n, k, l, a) < base(n),
    decreases a,
{
    lemma_base_shl(n as u64);
    lemma_base_fits(n);
    if a > 0 {
        lemma_mul_part_below(t, n, k, l, a - 1);
        assert(row_part(t, n, a - 1, l, n as int) < base(n));
        lemma_or_below(mul_part(t, n, k, l, a - 1), row_part(t, n, a - 1, l, n as int), n as u64);
    }
}

/// A strictly increasing sequence of values below `bound` has at most `bound` entries.
proof fn lemma_sorted_len(s: Seq<u64>, bound: nat)
    requires
        sorted_strict(s),
        forall|i: int| 0 <= i < s.len() ==> #[trigger] s[i] < bound,
    ensures
        s.len() <= bound,
{
    assert forall|k: int| 0 <= k < s.len() implies #[trigger] s[k] >= k by {
        lemma_sorted_at_least(s, k);
    }
    if s.len() > 0 {
        assert(s[s.len() - 1] >= s.len() - 1);
    }
}

proof fn lemma_sorted_at_least(s: Seq<u64>, k: int)
    requires
        sorted_strict(s),
        0 <= k < s.len(),
    ensures
        s[k] >= k,
    decreases k,
{
    if k > 0 {
        lemma_sorted_at_least(s, k - 1);
    }
}

/// Adds `x` to a strictly increasing vector unless it is there; tells whether it was added.
pub fn insert_sorted(v: &mut Vec<u64>, x: u64) -> (added: bool)
    requires
        sorted_strict(old(v)@),
    ensures
        sorted_strict(final(v)@),
        forall|m: u64| final(v)@.contains(m) <==> old(v)@.contains(m) || m == x,
        added == !old(v)@.contains(x),
        final(v).len() == old(v).len() + if added { 1int } else { 0int },
{
    let mut i: usize = 0;
    while i < v.len() && v[i] < x
        invariant
            i <= v.len(),
            forall|j: int| 0 <= j < i ==> v@[j] < x,
        decreases v.len() - i,
    {
        i = i + 1;
    }
    if i < v.len() && v[i] == x {
        assert(v@[i as int] == x);
        return false;
    }
    let ghost old_v = v@;
    proof {
        assert forall|j: int| i <= j < old_v.len() implies old_v[j] > x by {
            if j > i {
                assert(old_v[i as int] < old_v[j]);
            }
        }
    }
    v.insert(i, x);
    proof {
        assert(v@ =~= old_v.subrange(0, i as int).push(x) + old_v.subrange(i as int, old_v.len() as int));
        assert forall|m: u64| v@.contains(m) <==> old_v.contains(m) || m == x by {
            if v@.contains(m) {
                let j = choose|j: int| 0 <= j < v@.len() && v@[j] == m;
                if j < i {
                    assert(old_v[j] == m);
                } else if j > i {
                    assert(old_v[j - 1] == m);
                }
            }
            if old_v.contains(m) {
                let j = choose|j: int| 0 <= j < old_v.len() && old_v[j] == m;
                if j < i {
                    assert(v@[j] == m);
                } else {
                    assert(v@[j + 1] == m);
                }
            }
            if m == x {
                assert(v@[i as int] == m);
            }
        }
        assert(!old_v.contains(x)) by {
            if old_v.contains(x) {
                let j = choose|j: int| 0 <= j < old_v.len() && old_v[j] == x;
            }
        }
    }
    true
}

impl HyperGroupoidMat {
    /// The smallest set of masks that holds every element and the product of any two of
    /// its members, as a strictly increasing vector. Starting from the elements, the
    /// products of all pairs are added until nothing new appears.
    pub fn collect_ph(&self) -> (r: Vec<u64>)
        requires
            self.wf(),
        ensures
            sorted_strict(r@),
            closed_under(self.table(), self.n as nat, r@.to_set()),
            forall|m: u64| r@.contains(m) <==> generated(self.table(), self.n as nat, m),
    {
        let ghost t = self.table();
        let ghost n = self.n as nat;
        let mut s = self.get_singleton();
        proof {
            lemma_base_shl(self.n);
            assert forall|i: int, j: int| 0 <= i < j < s@.len() implies s@[i] < s@[j] by {
                lemma_singleton_increasing(i as u64, j as u64);
            }
            assert forall|i: int| 0 <= i < s@.len() implies #[trigger] s@[i] < base(n) by {
                lemma_singleton_increasing(i as u64, self.n);
            }
            assert forall|m: u64| s@.contains(m) implies generated(t, n, m) by {
                let i = choose|i: int| 0 <= i < s@.len() && s@[i] == m;
                assert(m == singleton(i));
            }
            assert forall|i: int| 0 <= i < n implies s@.contains(#[trigger] singleton(i)) by {
                assert(s@[i] == singleton(i));
            }
        }
        loop
            invariant
                self.wf(),
                t == self.table(),
                n == self.n,
                base(n) == (1u64 << self.n),
                sorted_strict(s@),
                forall|i: int| 0 <= i < s@.len() ==> #[trigger] s@[i] < base(n),
                forall|m: u64| s@.contains(m) ==> generated(t, n, m),
                forall|i: int| 0 <= i < n ==> s@.contains(#[trigger] singleton(i)),
            decreases base(n) - s@.len(),
        {
            proof {
                lemma_sorted_len(s@, base(n));
            }
            let mut next = s.clone();
            let mut changed = false;
            let mut i: usize = 0;
            while i < s.len()
                invariant
                    self.wf(),
                    t == self.table(),
                    n == self.n,
                    base(n) == (1u64 << self.n),
                    sorted_strict(s@),
                    sorted_strict(next@),
                    forall|k: int| 0 <= k < s@.len() ==> #[trigger] s@[k] < base(n),
                    forall|k: int| 0 <= k < next@.len() ==> #[trigger] next@[k] < base(n),
                    forall|m: u64| s@.contains(m) ==> generated(t, n, m),
                    forall|m: u64| next@.contains(m) ==> generated(t, n, m),
                    forall|m: u64| s@.contains(m) ==> next@.contains(m),
                    i <= s.len(),
                    next.len() >= s.len(),
                    changed ==> next.len() > s.len(),
                    !changed ==> forall|m: u64| next@.contains(m) ==> s@.contains(m),
                    forall|a: int, b: int|
                        0 <= a < i && 0 <= b < s.len() ==> next@.contains(
                            #[trigger] mul_spec(t, n, s@[a], s@[b]),
                        ),
                decreases s.len() - i,
            {
                let mut j: usize = 0;
                while j < s.len()
                    invariant
                        self.wf(),
                        t == self.table(),
                        n == self.n,
                        base(n) == (1u64 << self.n),
                        sorted_strict(s@),
                        sorted_strict(next@),
                        forall|k: int| 0 <= k < s@.len() ==> #[trigger] s@[k] < base(n),
                        forall|k: int| 0 <= k < next@.len() ==> #[trigger] next@[k] < base(n),
                        forall|m: u64| s@.contains(m) ==> generated(t, n, m),
                        forall|m: u64| next@.contains(m) ==> generated(t, n, m),
                        forall|m: u64| s@.contains(m) ==> next@.contains(m),
                        i < s.len(),
                        j <= s.len(),
                        next.len() >= s.len(),
                        changed ==> next.len() > s.len(),
                        !changed ==> forall|m: u64| next@.contains(m) ==> s@.contains(m),
                        forall|a: int, b: int|
                            0 <= a < i && 0 <= b < s.len() ==> next@.contains(
                                #[trigger] mul_spec(t, n, s@[a], s@[b]),
                            ),
                        forall|b: int|
                            0 <= b < j ==> next@.contains(#[trigger] mul_spec(t, n, s@[i as int], s@[b])),
                    decreases s.len() - j,
                {
                    let p = self.mul_by_representation(&s[i], &s[j]);
                    proof {
                        lemma_mul_below(t, n, s@[i as int], s@[j as int]);
                        assert(s@.contains(s@[i as int]));
                        assert(s@.contains(s@[j as int]));
                        assert(generated(t, n, p)) by {
                            assert forall|ts: Set<u64>| #[trigger] closed_under(t, n, ts) implies ts.contains(p) by {
                                assert(ts.contains(s@[i as int]));
                                assert(ts.contains(s@[j as int]));
                            }
                        }
                    }
                    let ghost before = next@;
                    let added = insert_sorted(&mut next, p);
                    proof {
                        assert forall|k: int| 0 <= k < next@.len() implies #[trigger] next@[k] < base(n) by {
                            assert(next@.contains(next@[k]));
                            if next@[k] != p {
                                assert(before.contains(next@[k]));
                                let kk = choose|kk: int| 0 <= kk < before.len() && before[kk] == next@[k];
                            }
                        }
                    }
                    if added {
                        changed = true;
                    }
                    j = j + 1;
                }
                i = i + 1;
            }
            if !changed {
                proof {
                    assert forall|a: u64, b: u64| s@.to_set().contains(a) && s@.to_set().contains(b)
                        implies s@.to_set().contains(#[trigger] mul_spec(t, n, a, b)) by {
                        let ia = choose|ia: int| 0 <= ia < s@.len() && s@[ia] == a;
                        let ib = choose|ib: int| 0 <= ib < s@.len() && s@[ib] == b;
                        assert(next@.contains(mul_spec(t, n, s@[ia], s@[ib])));
                    }
                    assert(closed_under(t, n, s@.to_set()));
                    assert forall|m: u64| generated(t, n, m) implies s@.contains(m) by {
                        assert(closed_under(t, n, s@.to_set()));
                    }
                }
                return s;
            }
            proof {
                lemma_sorted_len(next@, base(n));
                assert forall|k: int| 0 <= k < n implies next@.contains(#[trigger] singleton(k)) by {
                    assert(s@.contains(singleton(k)));
                }
            }
            s = next;
        }
    }

    /// The beta relation: elements x and y are related when they lie together in one
    /// mask of the closure computed by `collect_ph`.
    pub fn beta_relation(&self) -> (r: Relation)
        requires
            self.wf(),
        ensures
            r.wf(),
            r.a@ == Seq::new(self.n as nat, |i: int| i as u64),
            r.b@ == r.a@,
            r.rel@.no_duplicates(),
            pairs_sorted(r.rel@),
            forall|q: (u64, u64)| #[trigger] r.rel@.contains(q) <==> beta_pair(self.table(), self.n as nat, q),
    {
        let ghost t = self.table();
        let ghost n = self.n as nat;
        let ph = self.collect_ph();
        let mut out: Vec<(u64, u64)> = Vec::new();
        let mut k: usize = 0;
        while k < ph.len()
            invariant
                self.wf(),
                t == self.table(),
                n == self.n,
                forall|m: u64| ph@.contains(m) <==> generated(t, n, m),
                k <= ph.len(),
                pairs_sorted(out@),
                forall|q: (u64, u64)| #[trigger] out@.contains(q) ==> beta_pair(t, n, q),
                forall|kk: int, x: int, y: int|
                    #![trigger member(ph@[kk], x), member(ph@[kk], y)]
                    0 <= kk < k && 0 <= x < n && 0 <= y < n && member(ph@[kk], x) && member(ph@[kk], y)
                        ==> out@.contains((singleton(x), singleton(y))),
            decreases ph.len() - k,
        {
            let m = ph[k];
            proof {
                assert(ph@.contains(m));
            }
            let mut x: u64 = 0;
            while x < self.n
                invariant
                    self.wf(),
                    t == self.table(),
                    n == self.n,
                    forall|mm: u64| ph@.contains(mm) <==> generated(t, n, mm),
                    k < ph.len(),
                    m == ph@[k as int],
                    generated(t, n, m),
                    x <= self.n,
                    pairs_sorted(out@),
                    forall|q: (u64, u64)| #[trigger] out@.contains(q) ==> beta_pair(t, n, q),
                    forall|kk: int, x1: int, y1: int|
                        #![trigger member(ph@[kk], x1), member(ph@[kk], y1)]
                        0 <= kk < k && 0 <= x1 < n && 0 <= y1 < n && member(ph@[kk], x1) && member(ph@[kk], y1)
                            ==> out@.contains((singleton(x1), singleton(y1))),
                    forall|x1: int, y1: int|
                        #![trigger member(m, x1), member(m, y1)]
                        0 <= x1 < x && 0 <= y1 < n && member(m, x1) && member(m, y1)
                            ==> out@.contains((singleton(x1), singleton(y1))),
                decreases self.n - x,
            {
                let mut y: u64 = 0;
                while y < self.n
                    invariant
                        self.wf(),
                        t == self.table(),
                        n == self.n,
                        forall|mm: u64| ph@.contains(mm) <==> generated(t, n, mm),
                        k < ph.len(),
                        m == ph@[k as int],
                        generated(t, n, m),
                        x < self.n,
                        y <= self.n,
                        pairs_sorted(out@),
                        forall|q: (u64, u64)| #[trigger] out@.contains(q) ==> beta_pair(t, n, q),
                        forall|kk: int, x1: int, y1: int|
                            #![trigger member(ph@[kk], x1), member(ph@[kk], y1)]
                            0 <= kk < k && 0 <= x1 < n && 0 <= y1 < n && member(ph@[kk], x1) && member(ph@[kk], y1)
                                ==> out@.contains((singleton(x1), singleton(y1))),
                        forall|x1: int, y1: int|
                            #![trigger member(m, x1), member(m, y1)]
                            0 <= x1 < x && 0 <= y1 < n && member(m, x1) && member(m, y1)
                                ==> out@.contains((singleton(x1), singleton(y1))),
                        forall|y1: int|
                            0 <= y1 < y && member(m, x as int) && #[trigger] member(m, y1)
                                ==> out@.contains((singleton(x as int), singleton(y1))),
                    decreases self.n - y,
                {
                    if has_bit(m, x) && has_bit(m, y) {
                        let q: (u64, u64) = (1u64 << x, 1u64 << y);
                        assert(q == (singleton(x as int), singleton(y as int)));
                        let ghost before = out@;
                        insert_sorted_pair(&mut out, q);
                        proof {
                            assert(beta_pair(t, n, q));
                            assert forall|q2: (u64, u64)| #[trigger] out@.contains(q2) implies beta_pair(t, n, q2) by {
                                if q2 != q {
                                    assert(before.contains(q2));
                                }
                            }
                        }
                    }
                    y = y + 1;
                }
                x = x + 1;
            }
            k = k + 1;
        }
        let mut dom: Vec<u64> = Vec::new();
        let mut i: u64 = 0;
        while i < self.n
            invariant
                self.n < 64,
                i <= self.n,
                dom@ == Seq::new(i as nat, |j: int| j as u64),
            decreases self.n - i,
        {
            dom.push(i);
            i = i + 1;
            assert(dom@ =~= Seq::new(i as nat, |j: int| j as u64));
        }
        let r = Relation { a: dom.clone(), b: dom, rel: out };
        proof {
            lemma_sorted_pairs_distinct(r.rel@);
            assert forall|q: (u64, u64)| beta_pair(t, n, q) implies #[trigger] r.rel@.contains(q) by {
                let (m, x, y) = choose|m: u64, x: int, y: int|
                    #![trigger member(m, x), member(m, y)]
                    0 <= x < n && 0 <= y < n && generated(t, n, m) && member(m, x) && member(m, y) && q == (
                        singleton(x),
                        singleton(y),
                    );
                assert(ph@.contains(m));
                let kk = choose|kk: int| 0 <= kk < ph@.len() && ph@[kk] == m;
                assert(out@.contains((singleton(x), singleton(y))));
            }
        }
        r
    }
}

/// Union of the elements x below `k` with `a` inside b o x.
pub open spec fn left_div_upto(t: Seq<u64>, n: nat, a: u64, b: u64, k: int) -> u64
    decreases k,
{
    if k <= 0 {
        0
    } else {
        let prev = left_div_upto(t, n, a, b, k - 1);
        if a & mul_spec(t, n, b, singleton(k - 1)) == a {
            prev | singleton(k - 1)
        } else {
            prev
        }
    }
}

/// Union of the elements x below `k` with `a` inside x o b.
pub open spec fn right_div_upto(t: Seq<u64>, n: nat, a: u64, b: u64, k: int) -> u64
    decreases k,
{
    if k <= 0 {
        0
    } else {
        let prev = right_div_upto(t, n, a, b, k - 1);
        if a & mul_spec(t, n, singleton(k - 1), b) == a {
            prev | singleton(k - 1)
        } else {
            prev
        }
    }
}

impl HyperGroupoidMat {
    /// The product of two subsets given by their elements; an element outside the
    /// carrier is refused.
    pub fn mul(&self, subset_k: &Vec<u64>, subset_l: &Vec<u64>) -> (r: Result<u64, HsError>)
        requires
            self.wf(),
        ensures
            r is Ok <==> (forall|i: int| 0 <= i < subset_k.len() ==> #[trigger] subset_k@[i] < self.n)
                && (forall|i: int| 0 <= i < subset_l.len() ==> #[trigger] subset_l@[i] < self.n),
            r matches Err(e) ==> e == HsError::SubsetNotInCarrier,
            r matches Ok(v) ==> exists|k: u64, l: u64|
                (forall|z: int| 0 <= z < 64 ==> (#[trigger] member(k, z) <==> subset_k@.contains(z as u64)))
                    && (forall|z: int| 0 <= z < 64 ==> (#[trigger] member(l, z) <==> subset_l@.contains(z as u64)))
                    && v == mul_spec(self.table(), self.n as nat, k, l),
    {
        let mut i: usize = 0;
        while i < subset_k.len()
            invariant
                i <= subset_k.len(),
                forall|j: int| 0 <= j < i ==> #[trigger] subset_k@[j] < self.n,
            decreases subset_k.len() - i,
        {
            if subset_k[i] >= self.n {
                return Err(HsError::SubsetNotInCarrier);
            }
            i = i + 1;
        }
        let mut j: usize = 0;
        while j < subset_l.len()
            invariant
                j <= subset_l.len(),
                forall|q: int| 0 <= q < j ==> #[trigger] subset_l@[q] < self.n,
            decreases subset_l.len() - j,
        {
            if subset_l[j] >= self.n {
                return Err(HsError::SubsetNotInCarrier);
            }
            j = j + 1;
        }
        let k = crate::utilities::subset_as_u64(subset_k);
        let l = crate::utilities::subset_as_u64(subset_l);
        Ok(self.mul_by_representation(&k, &l))
    }

    /// The elements of the subset that the mask `k` represents.
    pub fn get_subset_from_k(&self, k: &u64) -> (r: std::collections::HashSet<u64>)
        requires
            self.wf(),
            *k < base(self.n as nat),
        ensures
            r@ == crate::utilities::members_upto(*k, self.n as int).to_set(),
    {
        crate::utilities::vec_to_set(&crate::utilities::get_subset(k, &self.n))
    }

    /// The union of the elements x with `a` inside b o x.
    pub fn left_division(&self, a: &u64, b: &u64) -> (r: u64)
        requires
            self.wf(),
        ensures
            r == left_div_upto(self.table(), self.n as nat, *a, *b, self.n as int),
    {
        let mut acc: u64 = 0;
        let mut x: u64 = 0;
        while x < self.n
            invariant
                self.wf(),
                x <= self.n,
                acc == left_div_upto(self.table(), self.n as nat, *a, *b, x as int),
            decreases self.n - x,
        {
            let sx: u64 = 1u64 << x;
            if *a & self.mul_by_representation(b, &sx) == *a {
                acc = acc | sx;
            }
            x = x + 1;
        }
        acc
    }

    /// The union of the elements x with `a` inside x o b.
    pub fn right_division(&self, a: &u64, b: &u64) -> (r: u64)
        requires
            self.wf(),
        ensures
            r == right_div_upto(self.table(), self.n as nat, *a, *b, self.n as int),
    {
        let mut acc: u64 = 0;
        let mut x: u64 = 0;
        while x < self.n
            invariant
                self.wf(),
                x <= self.n,
                acc == right_div_upto(self.table(), self.n as nat, *a, *b, x as int),
            decreases self.n - x,
        {
            let sx: u64 = 1u64 << x;
            if *a & self.mul_by_representation(&sx, b) == *a {
                acc = acc | sx;
            }
            x = x + 1;
        }
        acc
    }

    /// A table on `n` elements whose entries are drawn at random among the non-empty
    /// subsets.
    pub fn new_random_from_cardinality(n: &u64) -> (r: HyperGroupoidMat)
        requires
            1 <= *n < 64,
        ensures
            r.wf(),
            r.n == *n,
    {
        let rows = get_random_hypercomposition_table(n);
        let nn = *n;
        proof {
            lemma_cube_bounds(nn as nat);
        }
        let mut t: Vec<u64> = Vec::new();
        let mut k: usize = 0;
        let cells: usize = (nn * nn) as usize;
        while k < cells
            invariant
                1 <= nn < 64,
                cells == nn * nn,
                rows.len() == nn,
                forall|i: int| 0 <= i < nn ==> (#[trigger] rows@[i]).len() == nn,
                forall|i: int, j: int| 0 <= i < nn && 0 <= j < nn ==> 0 < #[trigger] rows@[i]@[j] && rows@[i]@[j] < base(nn as nat),
                k <= cells,
                t.len() == k,
                forall|p: int| 0 <= p < k ==> 0 < #[trigger] t@[p] && t@[p] < base(nn as nat),
            decreases cells - k,
        {
            let x = k / (nn as usize);
            let y = k % (nn as usize);
            proof {
                crate::perm::lemma_cell_cover(nn as nat, k as int);
            }
            t.push(rows[x][y]);
            k = k + 1;
        }
        HyperGroupoidMat { n: nn, hyper_composition: t }
    }
}

/// A table on `n` elements, as rows, whose entries are drawn at random among the
/// non-empty subsets.
pub fn get_random_hypercomposition_table(n: &u64) -> (r: Vec<Vec<u64>>)
    requires
        1 <= *n < 64,
    ensures
        r.len() == *n,
        forall|i: int| 0 <= i < *n ==> (#[trigger] r@[i]).len() == *n,
        forall|i: int, j: int| 0 <= i < *n && 0 <= j < *n ==> 0 < #[trigger] r@[i]@[j] && r@[i]@[j] < base(*n as nat),
{
    proof {
        lemma_base_shl(*n);
        vstd::bits::lemma_u64_pow2_no_overflow(*n as nat);
        vstd::arithmetic::power2::lemma_pow2(*n as nat);
        crate::bits::lemma_pow_step(2, 0);
        crate::bits::lemma_pow_step(2, 1);
        lemma_pow_increases(2, 1, *n as nat);
    }
    let bound: u64 = 1u64 << *n;
    let mut r: Vec<Vec<u64>> = Vec::new();
    let mut x: u64 = 0;
    while x < *n
        invariant
            1 <= *n < 64,
            bound == base(*n as nat),
            bound >= 2,
            x <= *n,
            r.len() == x,
            forall|i: int| 0 <= i < x ==> (#[trigger] r@[i]).len() == *n,
            forall|i: int, j: int| 0 <= i < x && 0 <= j < *n ==> 0 < #[trigger] r@[i]@[j] && r@[i]@[j] < base(*n as nat),
        decreases *n - x,
    {
        let mut row: Vec<u64> = Vec::new();
        let mut y: u64 = 0;
        while y < *n
            invariant
                bound >= 2,
                bound == base(*n as nat),
                y <= *n,
                row.len() == y,
                forall|j: int| 0 <= j < y ==> 0 < #[trigger] row@[j] && row@[j] < base(*n as nat),
            decreases *n - y,
        {
            row.push(crate::outside::random_in_range(1, bound));
            y = y + 1;
        }
        r.push(row);
        x = x + 1;
    }
    r
}

} // verus!
