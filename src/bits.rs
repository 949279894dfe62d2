//! Binary digits and positional values.
use vstd::arithmetic::div_mod::*;
use vstd::arithmetic::mul::*;
use vstd::arithmetic::power::*;
use vstd::calc;
use vstd::prelude::*;

verus! {

/// Value of the digit sequence `s`, most significant digit first, in base `b`.
pub open spec fn radix_value(s: Seq<u64>, b: nat) -> nat
    decreases s.len(),
{
    if s.len() == 0 {
        0
    } else {
        radix_value(s.drop_last(), b) * b + s.last() as nat
    }
}

/// Every digit of `s` is below `b`.
pub open spec fn digits_below(s: Seq<u64>, b: nat) -> bool {
    forall|i: int| 0 <= i < s.len() ==> #[trigger] s[i] < b
}

/// The lowest `w` binary digits of `k`, most significant first.
pub open spec fn digits(k: nat, w: nat) -> Seq<u64>
    decreases w,
{
    if w == 0 {
        seq![]
    } else {
        digits(k / 2, (w - 1) as nat).push((k % 2) as u64)
    }
}

/// Value of a binary digit sequence, most significant digit first.
pub open spec fn bin_value(s: Seq<u64>) -> nat {
    radix_value(s, 2)
}

/// Splitting a digit sequence splits its value.
pub proof fn lemma_radix_append(a: Seq<u64>, c: Seq<u64>, b: nat)
    ensures
        radix_value(a + c, b) == radix_value(a, b) * pow(b as int, c.len()) + radix_value(c, b),
    decreases c.len(),
{
    reveal(pow);
    if c.len() == 0 {
        assert(a + c =~= a);
        assert(pow(b as int, 0) == 1);
        lemma_mul_basics(radix_value(a, b) as int);
    } else {
        let c0 = c.drop_last();
        assert((a + c).drop_last() =~= a + c0);
        assert((a + c).last() == c.last());
        lemma_radix_append(a, c0, b);
        let ra = radix_value(a, b) as int;
        let p = pow(b as int, c0.len());
        assert(pow(b as int, c.len()) == b * p);
        calc! {
            (==)
            radix_value(a + c, b) as int; {}
            (ra * p + radix_value(c0, b)) * b + c.last(); {
                lemma_mul_is_distributive_add_other_way(b as int, ra * p, radix_value(c0, b) as int);
                lemma_mul_is_associative(ra, p, b as int);
                lemma_mul_is_commutative(p, b as int);
            }
            ra * (b * p) + (radix_value(c0, b) * b + c.last());
        }
        assert(radix_value(c, b) == radix_value(c0, b) * b + c.last());
    }
}

/// A sequence of digits below `b` has a value below `b` to the power of its length.
pub proof fn lemma_radix_bound(s: Seq<u64>, b: nat)
    requires
        digits_below(s, b),
    ensures
        radix_value(s, b) < pow(b as int, s.len()),
    decreases s.len(),
{
    reveal(pow);
    if s.len() > 0 {
        let s0 = s.drop_last();
        assert(digits_below(s0, b)) by {
            assert forall|i: int| 0 <= i < s0.len() implies #[trigger] s0[i] < b by {
                assert(s0[i] == s[i]);
            }
        }
        lemma_radix_bound(s0, b);
        let v = radix_value(s0, b) as int;
        let p = pow(b as int, s0.len());
        assert(s.last() < b);
        assert(v + 1 <= p);
        assert(pow(b as int, s.len()) == b * p);
        assert(radix_value(s, b) == v * b + s.last());
        assert(v * b + s.last() < p * b) by (nonlinear_arith)
            requires
                v + 1 <= p,
                s.last() < b,
                v >= 0,
        ;
    }
}

/// Splitting off the last `c` digits is division and remainder by a power of the base.
pub proof fn lemma_radix_split(a: Seq<u64>, c: Seq<u64>, b: nat)
    requires
        b > 0,
        digits_below(c, b),
    ensures
        radix_value(a + c, b) / (pow(b as int, c.len()) as nat) == radix_value(a, b),
        radix_value(a + c, b) % (pow(b as int, c.len()) as nat) == radix_value(c, b),
{
    lemma_radix_append(a, c, b);
    lemma_radix_bound(c, b);
    lemma_pow_positive(b as int, c.len());
    lemma_fundamental_div_mod_converse(
        radix_value(a + c, b) as int,
        pow(b as int, c.len()),
        radix_value(a, b) as int,
        radix_value(c, b) as int,
    );
}

/// The digits of `k` are binary and read back as `k` modulo the width's power of two.
pub proof fn lemma_digits_value(k: nat, w: nat)
    ensures
        digits(k, w).len() == w,
        digits_below(digits(k, w), 2),
        bin_value(digits(k, w)) == k % (pow(2, w) as nat),
    decreases w,
{
    reveal(pow);
    if w > 0 {
        let w0 = (w - 1) as nat;
        lemma_digits_value(k / 2, w0);
        let d = digits(k, w);
        assert(d.drop_last() =~= digits(k / 2, w0));
        assert forall|i: int| 0 <= i < d.len() implies #[trigger] d[i] < 2 by {
            if i < w0 {
                assert(d[i] == digits(k / 2, w0)[i]);
            }
        }
        lemma_pow_positive(2, w0);
        let p = pow(2, w0);
        // k % (2p) == 2 * ((k / 2) % p) + k % 2
        lemma_mod_breakdown(k as int, 2, p);
        lemma_mul_is_commutative(2, p);
    }
}

/// Reading binary digits and writing them back at the same width gives the digits again.
pub proof fn lemma_value_digits(s: Seq<u64>)
    requires
        digits_below(s, 2),
    ensures
        digits(bin_value(s), s.len()) == s,
    decreases s.len(),
{
    if s.len() > 0 {
        let s0 = s.drop_last();
        assert(digits_below(s0, 2)) by {
            assert forall|i: int| 0 <= i < s0.len() implies #[trigger] s0[i] < 2 by {
                assert(s0[i] == s[i]);
            }
        }
        lemma_value_digits(s0);
        let v = bin_value(s);
        assert(v == bin_value(s0) * 2 + s.last());
        lemma_fundamental_div_mod_converse(v as int, 2, bin_value(s0) as int, s.last() as int);
        assert(digits(v, s.len()) =~= digits(v / 2, s0.len()).push((v % 2) as u64));
        assert(s0.push(s.last()) =~= s);
    }
}

/// Reads binary digits, most significant first, as an integer.
pub fn binary_to_n(binary_vec: &Vec<u64>) -> (r: u128)
    requires
        digits_below(binary_vec@, 2),
        bin_value(binary_vec@) <= u128::MAX,
    ensures
        r == bin_value(binary_vec@),
{
    let mut acc: u128 = 0;
    let mut i: usize = 0;
    while i < binary_vec.len()
        invariant
            i <= binary_vec.len(),
            digits_below(binary_vec@, 2),
            bin_value(binary_vec@) <= u128::MAX,
            acc == bin_value(binary_vec@.take(i as int)),
        decreases binary_vec.len() - i,
    {
        let ghost s = binary_vec@;
        let ghost t = s.take(i as int + 1);
        assert(t.drop_last() =~= s.take(i as int));
        assert(s =~= t + s.skip(i as int + 1));
        proof {
            lemma_radix_append(t, s.skip(i as int + 1), 2);
            lemma_pow_positive(2, s.skip(i as int + 1).len());
            let q = pow(2, s.skip(i as int + 1).len());
            let v = bin_value(t) as int;
            assert(v <= v * q) by (nonlinear_arith)
                requires
                    q > 0,
                    v >= 0,
            ;
        }
        assert(bin_value(t) == acc * 2 + binary_vec[i as int]);
        acc = acc * 2 + binary_vec[i] as u128;
        i = i + 1;
    }
    assert(binary_vec@.take(i as int) =~= binary_vec@);
    acc
}

/// Digit `j` of `digits(k, w)` is bit `w - 1 - j` of `k`.
pub proof fn lemma_digit_at(k: nat, w: nat, j: int)
    requires
        0 <= j < w,
    ensures
        digits(k, w)[j] == (k / (pow(2, (w - 1 - j) as nat) as nat)) % 2,
    decreases w,
{
    reveal(pow);
    let w0 = (w - 1) as nat;
    lemma_digits_value(k / 2, w0);
    if j == w0 {
        assert(pow(2, 0) == 1);
        assert(k / 1 == k);
    } else {
        assert(digits(k, w)[j] == digits(k / 2, w0)[j]);
        lemma_digit_at(k / 2, w0, j);
        let e = (w0 - 1 - j) as nat;
        lemma_pow_positive(2, e);
        lemma_div_denominator(k as int, 2, pow(2, e));
        assert(pow(2, (w - 1 - j) as nat) == 2 * pow(2, e));
    }
}

/// One more factor of the base.
pub proof fn lemma_pow_step(b: int, e: nat)
    ensures
        pow(b, e + 1) == b * pow(b, e),
        pow(b, 0) == 1,
{
    reveal(pow);
}

/// Two to the 128th power, written out.
pub proof fn lemma_pow2_128()
    ensures
        pow(2, 128) == 0x1_0000_0000_0000_0000_0000_0000_0000_0000,
{
    vstd::arithmetic::power2::lemma2_to64();
    vstd::arithmetic::power2::lemma_pow2_adds(64, 64);
    vstd::arithmetic::power2::lemma_pow2(128);
}

/// Halving `k / 2^i` gives `k / 2^(i+1)`.
proof fn lemma_halve_step(k: nat, i: nat)
    ensures
        (k / (pow(2, i) as nat)) / 2 == k / (pow(2, i + 1) as nat),
{
    reveal(pow);
    lemma_pow_positive(2, i);
    lemma_div_denominator(k as int, pow(2, i), 2);
    assert(pow(2, i + 1) == 2 * pow(2, i));
    lemma_mul_is_commutative(2, pow(2, i));
}

/// The lowest `w` binary digits of `k`, most significant first.
pub fn low_digits(k: u128, w: u64) -> (r: Vec<u64>)
    ensures
        r@ == digits(k as nat, w as nat),
{
    let mut r: Vec<u64> = Vec::new();
    let mut j: u64 = 0;
    while j < w
        invariant
            j <= w,
            r.len() == j,
        decreases w - j,
    {
        r.push(0);
        j = j + 1;
    }
    let mut cur: u128 = k;
    let mut i: u64 = 0;
    proof {
        lemma_pow_step(2, 0);
    }
    while i < w
        invariant
            i <= w,
            r.len() == w,
            cur == k as nat / (pow(2, i as nat) as nat),
            forall|t: int|
                w - i <= t < w ==> #[trigger] r@[t] == (k as nat / (pow(2, (w - 1 - t) as nat) as nat)) % 2,
        decreases w - i,
    {
        proof {
            lemma_halve_step(k as nat, i as nat);
        }
        r.set((w - 1 - i) as usize, (cur % 2) as u64);
        cur = cur / 2;
        i = i + 1;
    }
    proof {
        lemma_digits_value(k as nat, w as nat);
        assert forall|t: int| 0 <= t < w implies r@[t] == #[trigger] digits(k as nat, w as nat)[t] by {
            lemma_digit_at(k as nat, w as nat, t);
        }
        assert(r@ =~= digits(k as nat, w as nat));
    }
    r
}

/// The binary digits of `k`, most significant first, padded with zeros on the left
/// to at least `width` digits; zero has the one digit 0.
pub fn n_to_binary_vec(k: &u128, width: &u64) -> (r: Vec<u64>)
    ensures
        r@ == digits(*k as nat, r.len() as nat),
        *k < pow(2, r.len() as nat),
        r.len() >= *width,
        r.len() >= 1,
        r.len() > *width && r.len() > 1 ==> r@[0] == 1,
{
    let mut c: u128 = *k;
    let mut b: u64 = 0;
    proof {
        lemma_pow_step(2, 0);
        lemma_pow2_128();
    }
    while c > 0
        invariant
            b <= 128,
            c == *k as nat / (pow(2, b as nat) as nat),
            b > 0 ==> *k as nat / (pow(2, (b - 1) as nat) as nat) >= 1,
            pow(2, 128) == 0x1_0000_0000_0000_0000_0000_0000_0000_0000,
        decreases c,
    {
        proof {
            lemma_halve_step(*k as nat, b as nat);
            if b == 128 {
                lemma_pow_positive(2, 128);
                lemma_basic_div(*k as int, pow(2, 128));
            }
        }
        c = c / 2;
        b = b + 1;
    }
    let bits: u64 = if b == 0 { 1 } else { b };
    let len: u64 = if bits > *width { bits } else { *width };
    let r = low_digits(*k, len);
    proof {
        let kk = *k as nat;
        lemma_pow_positive(2, b as nat);
        lemma_fundamental_div_mod(kk as int, pow(2, b as nat));
        lemma_mod_pos_bound(kk as int, pow(2, b as nat));
        assert(kk / (pow(2, b as nat) as nat) == 0);
        assert(kk < pow(2, b as nat));
        lemma_digits_value(kk, len as nat);
        lemma_pow_increases(2, b as nat, len as nat);
        if len > *width && len > 1 {
            lemma_digit_at(kk, len as nat, 0);
            lemma_halve_step(kk, (b - 1) as nat);
            assert((len - 1 - 0) as nat == (b - 1) as nat);
        }
    }
    r
}

/// The binary digits of `k`, most significant first, padded to at least `width` digits.
pub fn u64_to_binary_vec_u64(k: &u64, width: &u32) -> (r: Vec<u64>)
    ensures
        r@ == digits(*k as nat, r.len() as nat),
        *k < pow(2, r.len() as nat),
        r.len() >= *width,
        r.len() >= 1,
        r.len() > *width && r.len() > 1 ==> r@[0] == 1,
{
    n_to_binary_vec(&(*k as u128), &(*width as u64))
}

/// The lowest `width` binary digits of `m`, most significant first.
pub fn collect_n_digits(width: &u64, m: &u128) -> (r: Vec<u64>)
    ensures
        r@ == digits(*m as nat, *width as nat),
{
    low_digits(*m, *width)
}

} // verus!
