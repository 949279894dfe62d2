//! Tags: a table of n x n subset masks packed into n^3 bits.
//!
//! The table is read in row-major order; its first entry is the most significant
//! n-bit chunk of the tag and its last entry the least significant one.
use crate::bits::{
    bin_value, digits, digits_below, lemma_digits_value, lemma_radix_append, lemma_radix_bound,
    lemma_radix_split, lemma_value_digits, low_digits, n_to_binary_vec, radix_value,
};
use crate::error::HsError;
use crate::wide::U1024;
use vstd::arithmetic::div_mod::*;
use vstd::arithmetic::mul::*;
use vstd::arithmetic::power::*;
use vstd::prelude::*;

verus! {

/// Two to the `n`: the number of subsets of a carrier with `n` elements.
pub open spec fn base(n: nat) -> nat {
    pow(2, n) as nat
}

/// The tag of a sequence of masks: their `n`-bit chunks, the first one most significant.
pub open spec fn tag_of(s: Seq<u64>, n: nat) -> nat {
    radix_value(s, base(n))
}

/// Entry `i` (row-major) of the table that the tag `t` encodes.
pub open spec fn tag_entry(t: nat, n: nat, i: int) -> u64 {
    ((t / (pow(2, n * ((n * n - 1 - i) as nat)) as nat)) % base(n)) as u64
}

/// The n x n table, row-major, that the tag `t` encodes.
pub open spec fn table_of_tag(t: nat, n: nat) -> Seq<u64> {
    Seq::new(n * n, |i: int| tag_entry(t, n, i))
}

/// `t` encodes a hypergroupoid on `n` elements: it fits in n^3 bits and none of its
/// n^2 chunks is zero.
pub open spec fn valid_tag(t: nat, n: nat) -> bool {
    &&& n >= 1
    &&& t < pow(2, n * n * n)
    &&& forall|i: int| 0 <= i < n * n ==> #[trigger] tag_entry(t, n, i) != 0
}

/// The `n`-digit binary forms of the masks of `s`, one after the other.
pub open spec fn concat_digits(s: Seq<u64>, n: nat) -> Seq<u64>
    decreases s.len(),
{
    if s.len() == 0 {
        seq![]
    } else {
        concat_digits(s.drop_last(), n) + digits(s.last() as nat, n)
    }
}

/// Every mask of `s` is a non-empty subset of an `n`-element carrier.
pub open spec fn masks_in_carrier(s: Seq<u64>, n: nat) -> bool {
    forall|i: int| 0 <= i < s.len() ==> 0 < #[trigger] s[i] && s[i] < base(n)
}

pub proof fn lemma_binary_subrange(d: Seq<u64>, a: int, b: int)
    requires
        digits_below(d, 2),
        0 <= a <= b <= d.len(),
    ensures
        digits_below(d.subrange(a, b), 2),
{
    assert forall|i: int| 0 <= i < b - a implies #[trigger] d.subrange(a, b)[i] < 2 by {
        assert(d.subrange(a, b)[i] == d[a + i]);
    }
}

/// A binary sequence reads as zero exactly when all its digits are zero.
pub proof fn lemma_bin_zero(s: Seq<u64>)
    requires
        digits_below(s, 2),
    ensures
        bin_value(s) == 0 <==> (forall|i: int| 0 <= i < s.len() ==> #[trigger] s[i] == 0),
    decreases s.len(),
{
    if s.len() > 0 {
        let s0 = s.drop_last();
        lemma_binary_subrange(s, 0, s.len() - 1);
        assert(s0 =~= s.subrange(0, s.len() - 1));
        lemma_bin_zero(s0);
        if bin_value(s) == 0 {
            assert forall|i: int| 0 <= i < s.len() implies #[trigger] s[i] == 0 by {
                if i < s.len() - 1 {
                    assert(s0[i] == s[i]);
                }
            }
        }
        if forall|i: int| 0 <= i < s.len() ==> #[trigger] s[i] == 0 {
            assert forall|i: int| 0 <= i < s0.len() implies #[trigger] s0[i] == 0 by {
                assert(s0[i] == s[i]);
            }
        }
    }
}

/// The digits of a sequence of masks read as its tag.
pub proof fn lemma_concat_digits(s: Seq<u64>, n: nat)
    ensures
        concat_digits(s, n).len() == n * s.len(),
        digits_below(concat_digits(s, n), 2),
        (forall|i: int| 0 <= i < s.len() ==> #[trigger] s[i] < base(n)) ==> bin_value(
            concat_digits(s, n),
        ) == tag_of(s, n),
    decreases s.len(),
{
    if s.len() > 0 {
        let s0 = s.drop_last();
        let c0 = concat_digits(s0, n);
        let dl = digits(s.last() as nat, n);
        lemma_concat_digits(s0, n);
        lemma_digits_value(s.last() as nat, n);
        lemma_mul_is_distributive_add(n as int, s0.len() as int, 1);
        let c = concat_digits(s, n);
        assert forall|i: int| 0 <= i < c.len() implies #[trigger] c[i] < 2 by {
            if i < c0.len() {
                assert(c[i] == c0[i]);
            } else {
                assert(c[i] == dl[i - c0.len()]);
            }
        }
        if forall|i: int| 0 <= i < s.len() ==> #[trigger] s[i] < base(n) {
            assert forall|i: int| 0 <= i < s0.len() implies #[trigger] s0[i] < base(n) by {
                assert(s0[i] == s[i]);
            }
            lemma_radix_append(c0, dl, 2);
            assert(s.last() < base(n));
            lemma_small_mod(s.last() as nat, base(n));
            assert(c =~= c0 + dl);
            assert(dl.len() == n);
            lemma_pow_positive(2, n);
            assert(radix_value(c0 + dl, 2) == radix_value(c0, 2) * pow(2, n) + radix_value(dl, 2));
            assert(bin_value(dl) == s.last());
            assert(bin_value(c) == bin_value(c0) * base(n) + bin_value(dl));
            assert(tag_of(s, n) == tag_of(s0, n) * base(n) + s.last());
        }
    }
}

/// Two to a power of at most 64 is positive and fits in 65 bits.
pub proof fn lemma_base_fits(n: nat)
    requires
        n <= 64,
    ensures
        0 < base(n) <= 0x1_0000_0000_0000_0000,
{
    lemma_pow_positive(2, n);
    lemma_pow_increases(2, n, 64);
    vstd::arithmetic::power2::lemma2_to64();
    vstd::arithmetic::power2::lemma_pow2(64);
}

/// Sizes of a table on at most 64 elements.
pub proof fn lemma_cube_bounds(n: nat)
    requires
        n <= 64,
    ensures
        n * n <= 4096,
        n * n * n <= 262144,
{
    assert(n * n <= 4096) by (nonlinear_arith)
        requires
            n <= 64,
    ;
    assert(n * n * n <= 262144) by (nonlinear_arith)
        requires
            n <= 64,
            n * n <= 4096,
    ;
}

/// Index arithmetic for chunk `i` of an `n * n`-chunk table.
proof fn lemma_chunk_bounds(n: nat, i: int)
    requires
        n >= 1,
        0 <= i < n * n,
    ensures
        n * (i + 1) <= n * n * n,
        n * n * n - n * (i + 1) == n * ((n * n - 1 - i) as nat),
        n * i + n == n * (i + 1),
{
    assert(n * (i + 1) <= n * n * n) by (nonlinear_arith)
        requires
            n >= 1,
            0 <= i < n * n,
    ;
    assert(n * n * n - n * (i + 1) == n * (n * n - 1 - i)) by (nonlinear_arith);
    assert(n * i + n == n * (i + 1)) by (nonlinear_arith);
}

/// Chunk `i` of the tag that a binary sequence reads as, taken from the sequence itself:
/// the table occupies its last n^3 digits.
pub proof fn lemma_decode_chunk(d: Seq<u64>, n: nat, i: int)
    requires
        digits_below(d, 2),
        1 <= n <= 64,
        n * n * n <= d.len(),
        0 <= i < n * n,
    ensures
        tag_entry(bin_value(d), n, i) as nat == bin_value(
            d.subrange(d.len() - n * n * n + n * i, d.len() - n * n * n + n * i + n),
        ),
{
    lemma_chunk_bounds(n, i);
    let off = d.len() - n * n * n;
    let e = off + n * (i + 1);
    let a = d.subrange(0, e);
    let c = d.subrange(e, d.len() as int);
    assert(d =~= a + c);
    lemma_binary_subrange(d, e, d.len() as int);
    lemma_binary_subrange(d, e - n, e);
    lemma_radix_split(a, c, 2);
    assert(c.len() == n * ((n * n - 1 - i) as nat));
    let chunk = d.subrange(e - n, e);
    let a0 = d.subrange(0, e - n);
    assert(a =~= a0 + chunk);
    lemma_radix_split(a0, chunk, 2);
    lemma_radix_bound(chunk, 2);
    lemma_base_fits(n);
    let t = bin_value(d);
    assert(t / (pow(2, c.len()) as nat) == bin_value(a));
    assert(bin_value(a) % (pow(2, n) as nat) == bin_value(chunk));
    assert(pow(2, c.len()) == pow(2, n * ((n * n - 1 - i) as nat)));
    lemma_mod_pos_bound(bin_value(a) as int, pow(2, n));
}

/// The masks of a table, all below `2^n`, are recovered from its tag.
pub proof fn lemma_decode_encode(s: Seq<u64>, n: nat)
    requires
        1 <= n <= 64,
        s.len() == n * n,
        forall|i: int| 0 <= i < s.len() ==> #[trigger] s[i] < base(n),
    ensures
        table_of_tag(tag_of(s, n), n) == s,
        tag_of(s, n) < pow(2, n * n * n),
{
    let d = concat_digits(s, n);
    lemma_concat_digits(s, n);
    assert(d.len() == n * n * n) by {
        lemma_mul_is_associative(n as int, n as int, n as int);
    }
    assert forall|i: int| 0 <= i < n * n implies #[trigger] table_of_tag(tag_of(s, n), n)[i]
        == s[i] by {
        lemma_decode_chunk(d, n, i);
        lemma_chunk_bounds(n, i);
        lemma_chunk_of_concat(s, n, i);
        lemma_digits_value(s[i] as nat, n);
        lemma_small_mod(s[i] as nat, base(n));
    }
    assert(table_of_tag(tag_of(s, n), n) =~= s);
    lemma_radix_bound(d, 2);
}

/// The digits of mask `i` stand at chunk `i` of the concatenated digits.
proof fn lemma_chunk_of_concat(s: Seq<u64>, n: nat, i: int)
    requires
        0 <= i < s.len(),
    ensures
        n * i + n <= n * s.len(),
        concat_digits(s, n).subrange(n * i, n * i + n) == digits(s[i] as nat, n),
    decreases s.len(),
{
    let s0 = s.drop_last();
    lemma_concat_digits(s0, n);
    lemma_concat_digits(s, n);
    lemma_digits_value(s.last() as nat, n);
    assert(n * i + n <= n * s.len()) by (nonlinear_arith)
        requires
            0 <= i < s.len(),
    ;
    lemma_mul_is_distributive_add(n as int, s0.len() as int, 1);
    if i == s.len() - 1 {
        assert(concat_digits(s, n).subrange(n * i, n * i + n) =~= digits(s[i] as nat, n));
    } else {
        lemma_chunk_of_concat(s0, n, i);
        assert(s0[i] == s[i]);
        assert(concat_digits(s, n).subrange(n * i, n * i + n) =~= concat_digits(s0, n).subrange(
            n * i,
            n * i + n,
        ));
    }
}

/// The values of the consecutive `n`-digit chunks of `d`.
pub open spec fn chunk_values(d: Seq<u64>, n: nat, m: nat) -> Seq<u64> {
    Seq::new(m, |i: int| bin_value(d.subrange(n * i, n * i + n)) as u64)
}

/// Writing the chunk values back gives the digits again.
pub proof fn lemma_concat_chunks(d: Seq<u64>, n: nat, m: nat)
    requires
        digits_below(d, 2),
        1 <= n <= 64,
        d.len() == n * m,
    ensures
        concat_digits(chunk_values(d, n, m), n) == d,
    decreases m,
{
    if m == 0 {
        lemma_mul_basics(n as int);
        assert(d =~= seq![]);
    } else {
        let m0 = (m - 1) as nat;
        lemma_mul_is_distributive_add(n as int, m0 as int, 1);
        let k: int = (n * m0) as int;
        let d0 = d.subrange(0, k);
        let last = d.subrange(k, k + n);
        lemma_binary_subrange(d, 0, k);
        lemma_binary_subrange(d, k, k + n);
        lemma_concat_chunks(d0, n, m0);
        let cv = chunk_values(d, n, m);
        assert forall|i: int| 0 <= i < m0 implies #[trigger] cv.drop_last()[i] == chunk_values(
            d0,
            n,
            m0,
        )[i] by {
            assert(n * i + n <= n * m0) by (nonlinear_arith)
                requires
                    0 <= i < m0,
            ;
            assert(d.subrange(n * i, n * i + n) =~= d0.subrange(n * i, n * i + n));
        }
        assert(cv.drop_last() =~= chunk_values(d0, n, m0));
        lemma_radix_bound(last, 2);
        lemma_base_fits(n);
        assert(cv.last() as nat == bin_value(last));
        lemma_value_digits(last);
        assert(d =~= d0 + last);
    }
}

/// Entry `i` of a tag's table is its chunk value, below `2^n`.
proof fn lemma_entry_bound(t: nat, n: nat, i: int)
    requires
        n <= 64,
        0 <= i < n * n,
    ensures
        tag_entry(t, n, i) < base(n),
        tag_entry(t, n, i) as nat == (t / (pow(2, n * ((n * n - 1 - i) as nat)) as nat)) % base(n),
{
    lemma_base_fits(n);
    lemma_pow_positive(2, n * ((n * n - 1 - i) as nat));
    let q = t / (pow(2, n * ((n * n - 1 - i) as nat)) as nat);
    lemma_mod_pos_bound(q as int, base(n) as int);
}

/// Every valid tag is the tag of the table it encodes.
pub proof fn lemma_encode_decode(t: nat, n: nat)
    requires
        n <= 64,
        valid_tag(t, n),
    ensures
        tag_of(table_of_tag(t, n), n) == t,
{
    let w = n * n * n;
    let d = digits(t, w);
    lemma_digits_value(t, w);
    lemma_small_mod(t, pow(2, w) as nat);
    let s = table_of_tag(t, n);
    assert(w == n * (n * n)) by {
        lemma_mul_is_associative(n as int, n as int, n as int);
    }
    assert forall|i: int| 0 <= i < n * n implies #[trigger] s[i] == chunk_values(d, n, n * n)[i] by {
        lemma_decode_chunk(d, n, i);
    }
    assert(s =~= chunk_values(d, n, n * n));
    lemma_concat_chunks(d, n, n * n);
    lemma_base_fits(n);
    assert forall|i: int| 0 <= i < s.len() implies #[trigger] s[i] < base(n) by {
        lemma_entry_bound(t, n, i);
    }
    lemma_concat_digits(s, n);
}

/// Round trip: every table of non-empty masks of an `n`-element carrier has a valid tag,
/// and decoding that tag gives the table back; every valid tag is the tag of the table
/// it decodes to.
pub proof fn lemma_round_trip(s: Seq<u64>, t: nat, n: nat)
    requires
        1 <= n <= 64,
    ensures
        s.len() == n * n && masks_in_carrier(s, n) ==> valid_tag(tag_of(s, n), n) && table_of_tag(
            tag_of(s, n),
            n,
        ) == s,
        valid_tag(t, n) ==> tag_of(table_of_tag(t, n), n) == t && masks_in_carrier(
            table_of_tag(t, n),
            n,
        ),
{
    if s.len() == n * n && masks_in_carrier(s, n) {
        lemma_decode_encode(s, n);
        assert forall|i: int| 0 <= i < n * n implies #[trigger] tag_entry(tag_of(s, n), n, i)
            != 0 by {
            assert(table_of_tag(tag_of(s, n), n)[i] == s[i]);
        }
    }
    if valid_tag(t, n) {
        lemma_encode_decode(t, n);
        let e = table_of_tag(t, n);
        assert forall|i: int| 0 <= i < e.len() implies 0 < #[trigger] e[i] && e[i] < base(n) by {
            lemma_base_fits(n);
            lemma_entry_bound(t, n, i);
        }
    }
}

/// Every valid tag is at least 2^(n^3 - n): its most significant chunk is not zero. A
/// scan of the tags from there up to 2^(n^3) meets every valid tag.
pub proof fn lemma_valid_tag_lower_bound(t: nat, n: nat)
    requires
        valid_tag(t, n),
    ensures
        t >= pow(2, (n * n * n - n) as nat),
{
    assert(n * ((n * n - 1) as nat) == n * n * n - n) by (nonlinear_arith)
        requires
            n >= 1,
    ;
    assert(n * n >= 1) by (nonlinear_arith)
        requires
            n >= 1,
    ;
    assert(tag_entry(t, n, 0) != 0);
    let p = pow(2, (n * n * n - n) as nat);
    lemma_pow_positive(2, (n * n * n - n) as nat);
    if t < p {
        lemma_basic_div(t as int, p);
        assert(t / (p as nat) == 0);
        assert(0nat % base(n) == 0) by {
            lemma_pow_positive(2, n);
            lemma_small_mod(0, base(n));
        }
    }
}

/// A table with an empty product anywhere never has a valid tag.
pub proof fn lemma_zero_chunk_invalid(s: Seq<u64>, n: nat, k: int)
    requires
        1 <= n <= 64,
        s.len() == n * n,
        forall|i: int| 0 <= i < s.len() ==> #[trigger] s[i] < base(n),
        0 <= k < s.len(),
        s[k] == 0,
    ensures
        !valid_tag(tag_of(s, n), n),
{
    lemma_decode_encode(s, n);
    assert(tag_entry(tag_of(s, n), n, k) == table_of_tag(tag_of(s, n), n)[k]);
}

/// Value of the binary digits `d[a..b]`, at most 64 of them.
pub fn bin_slice(d: &Vec<u64>, a: usize, b: usize) -> (r: u64)
    requires
        digits_below(d@, 2),
        a <= b <= d.len(),
        b - a <= 64,
    ensures
        r as nat == bin_value(d@.subrange(a as int, b as int)),
{
    let mut acc: u64 = 0;
    let mut j: usize = a;
    while j < b
        invariant
            a <= j <= b <= d.len(),
            b - a <= 64,
            digits_below(d@, 2),
            acc as nat == bin_value(d@.subrange(a as int, j as int)),
        decreases b - j,
    {
        let ghost s1 = d@.subrange(a as int, j as int + 1);
        assert(s1.drop_last() =~= d@.subrange(a as int, j as int));
        proof {
            lemma_binary_subrange(d@, a as int, j as int + 1);
            lemma_radix_bound(s1, 2);
            lemma_base_fits((j + 1 - a) as nat);
        }
        acc = acc * 2 + d[j];
        j = j + 1;
    }
    acc
}

/// The table that the binary digits `d` encode, read from their last n^3 digits.
pub fn decode_digits(d: &Vec<u64>, n: u64) -> (r: Result<Vec<u64>, HsError>)
    requires
        digits_below(d@, 2),
        1 <= n <= 64,
        n * n * n <= d.len(),
    ensures
        r is Ok <==> valid_tag(bin_value(d@), n as nat),
        r matches Ok(e) ==> e@ == table_of_tag(bin_value(d@), n as nat),
        r matches Err(x) ==> x == HsError::InvalidTag,
{
    let ghost t = bin_value(d@);
    proof {
        lemma_cube_bounds(n as nat);
    }
    let w: usize = (n * n * n) as usize;
    let off: usize = d.len() - w;
    let ghost a = d@.subrange(0, off as int);
    proof {
        let c = d@.subrange(off as int, d.len() as int);
        assert(d@ =~= a + c);
        lemma_binary_subrange(d@, 0, off as int);
        lemma_binary_subrange(d@, off as int, d.len() as int);
        lemma_radix_split(a, c, 2);
        lemma_bin_zero(a);
        lemma_pow_positive(2, w as nat);
        assert(c.len() == w);
        assert(t / (pow(2, w as nat) as nat) == bin_value(a));
        if t < pow(2, w as nat) {
            lemma_basic_div(t as int, pow(2, w as nat));
        }
    }
    let mut k: usize = 0;
    while k < off
        invariant
            k <= off <= d.len(),
            a == d@.subrange(0, off as int),
            forall|j: int| 0 <= j < k ==> #[trigger] d@[j] == 0,
            digits_below(a, 2),
            t / (pow(2, w as nat) as nat) == bin_value(a),
            w == n * n * n,
            pow(2, w as nat) > 0,
            t == bin_value(d@),
        decreases off - k,
    {
        if d[k] != 0 {
            proof {
                assert(a[k as int] != 0);
                lemma_bin_zero(a);
                assert(bin_value(a) != 0);
                if t < pow(2, w as nat) {
                    lemma_basic_div(t as int, pow(2, w as nat));
                }
                assert(!(t < pow(2, n as nat * n as nat * n as nat)));
            }
            return Err(HsError::InvalidTag);
        }
        k = k + 1;
    }
    proof {
        assert forall|j: int| 0 <= j < off implies #[trigger] a[j] == 0 by {
            assert(d@[j] == 0);
        }
        assert(bin_value(a) == 0);
        let p = pow(2, w as nat);
        assert(t / (p as nat) == 0);
        lemma_fundamental_div_mod(t as int, p);
        lemma_mod_pos_bound(t as int, p);
        assert(t as int == p * (t as int / p) + t as int % p);
        lemma_mul_basics(p);
        assert(t as int / p == 0);
        assert(t as int == t as int % p);
        assert(t < p);
    }
    let cells: usize = (n * n) as usize;
    let mut e: Vec<u64> = Vec::new();
    let mut i: usize = 0;
    while i < cells
        invariant
            1 <= n <= 64,
            cells == n * n,
            w == n * n * n,
            off + w == d.len(),
            digits_below(d@, 2),
            t == bin_value(d@),
            t < pow(2, w as nat),
            i <= cells,
            e.len() == i,
            forall|j: int| 0 <= j < i ==> #[trigger] e@[j] == tag_entry(t, n as nat, j) && e@[j] != 0,
        decreases cells - i,
    {
        proof {
            lemma_chunk_bounds(n as nat, i as int);
            lemma_decode_chunk(d@, n as nat, i as int);
        }
        let start: usize = off + (n as usize) * i;
        let v = bin_slice(d, start, start + n as usize);
        if v == 0 {
            proof {
                assert(tag_entry(t, n as nat, i as int) == 0);
            }
            return Err(HsError::InvalidTag);
        }
        e.push(v);
        i = i + 1;
    }
    assert(e@ =~= table_of_tag(t, n as nat));
    assert forall|j: int| 0 <= j < n * n implies #[trigger] tag_entry(t, n as nat, j) != 0 by {
        assert(e@[j] == tag_entry(t, n as nat, j));
    }
    Ok(e)
}

/// The `n`-digit binary forms of the masks of `s`, one after the other.
pub fn encode_digits(s: &Vec<u64>, n: u64) -> (r: Vec<u64>)
    ensures
        r@ == concat_digits(s@, n as nat),
{
    let mut r: Vec<u64> = Vec::new();
    let mut i: usize = 0;
    while i < s.len()
        invariant
            i <= s.len(),
            r@ == concat_digits(s@.take(i as int), n as nat),
        decreases s.len() - i,
    {
        let ch = low_digits(s[i] as u128, n);
        assert(s@.take(i as int + 1).drop_last() =~= s@.take(i as int));
        r.extend_from_slice(ch.as_slice());
        i = i + 1;
    }
    assert(s@.take(i as int) =~= s@);
    r
}

/// Whether `tag` encodes a hypergroupoid on `cardinality` elements: it fits in n^3 bits
/// and none of its n-bit chunks is zero.
pub fn representing_hypergroupoid(tag: &u128, cardinality: &u64) -> (r: bool)
    requires
        1 <= *cardinality <= 64,
    ensures
        r == valid_tag(*tag as nat, *cardinality as nat),
{
    let n = *cardinality;
    proof {
        lemma_cube_bounds(n as nat);
    }
    let d = n_to_binary_vec(tag, &(n * n * n));
    proof {
        lemma_digits_value(*tag as nat, d.len() as nat);
        lemma_small_mod(*tag as nat, pow(2, d.len() as nat) as nat);
    }
    decode_digits(&d, n).is_ok()
}

/// Whether the 1024-bit `tag` encodes a hypergroupoid on `cardinality` elements.
pub fn representing_hypergroupoid_u1024(tag: &U1024, cardinality: &u64) -> (r: bool)
    requires
        1 <= *cardinality <= 10,
    ensures
        r == valid_tag(tag.value(), *cardinality as nat),
{
    let d = tag.to_digits();
    proof {
        tag.lemma_digits_of();
        lemma_cube_bounds(*cardinality as nat);
        assert(*cardinality * *cardinality * *cardinality <= 1000) by (nonlinear_arith)
            requires
                *cardinality <= 10,
        ;
    }
    decode_digits(&d, *cardinality).is_ok()
}

} // verus!
