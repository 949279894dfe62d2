//! A 1024-bit unsigned integer held as sixteen 64-bit words, least significant first.
use crate::bits::{
    bin_value, digits, digits_below, lemma_digits_value, lemma_radix_append, lemma_radix_bound,
    lemma_radix_split, lemma_value_digits, low_digits, n_to_binary_vec, radix_value,
};
use crate::codec::{
    base, bin_slice, chunk_values, concat_digits, lemma_base_fits, lemma_binary_subrange,
    lemma_bin_zero, lemma_concat_chunks, lemma_concat_digits, tag_of,
};
use vstd::arithmetic::div_mod::*;
use vstd::arithmetic::mul::*;
use vstd::arithmetic::power::*;
use vstd::prelude::*;

verus! {

/// A 1024-bit unsigned integer; word `0` is the least significant.
#[derive(Clone, Copy, Debug, PartialEq, Eq)]
pub struct U1024(pub [u64; 16]);

impl U1024 {
    /// The words, most significant first.
    pub open spec fn words_msb(self) -> Seq<u64> {
        Seq::new(16, |j: int| self.0@[15 - j])
    }

    /// The number this value stands for.
    pub open spec fn value(self) -> nat {
        tag_of(self.words_msb(), 64)
    }

    /// The 1024 binary digits of the value, most significant first.
    pub open spec fn digits_of(self) -> Seq<u64> {
        concat_digits(self.words_msb(), 64)
    }

    /// Bit `i` of the value, counted from the least significant end.
    pub open spec fn bit(self, i: int) -> u64 {
        self.digits_of()[1023 - i]
    }

    /// The digits of the value are 1024 binary digits that read as the value.
    pub proof fn lemma_digits_of(self)
        ensures
            self.digits_of().len() == 1024,
            digits_below(self.digits_of(), 2),
            bin_value(self.digits_of()) == self.value(),
            self.value() < pow(2, 1024),
            self.digits_of() == digits(self.value(), 1024),
    {
        let w = self.words_msb();
        lemma_base_fits(64);
        vstd::arithmetic::power2::lemma2_to64();
        vstd::arithmetic::power2::lemma_pow2(64);
        assert forall|i: int| 0 <= i < w.len() implies #[trigger] w[i] < base(64) by {}
        lemma_concat_digits(w, 64);
        lemma_radix_bound(self.digits_of(), 2);
        lemma_value_digits(self.digits_of());
    }

    /// Every word is a digit in base 2^64.
    pub proof fn lemma_words_below(self)
        ensures
            digits_below(self.words_msb(), base(64)),
    {
        lemma_base64();
    }

    /// Two values with the same digits are the same value.
    pub proof fn lemma_same_digits(self, other: U1024)
        ensures
            self.digits_of() == other.digits_of() <==> self.value() == other.value(),
    {
        self.lemma_digits_of();
        other.lemma_digits_of();
    }

    /// Two values with the same digits are the same words.
    pub proof fn lemma_digits_determine(self, other: U1024)
        requires
            self.digits_of() == other.digits_of(),
        ensures
            self == other,
    {
        self.lemma_same_digits(other);
        self.lemma_words_below();
        other.lemma_words_below();
        let a = self.words_msb();
        let b = other.words_msb();
        if exists|j: int| 0 <= j < 16 && a[j] != b[j] {
            let j = choose|j: int| 0 <= j < 16 && a[j] != b[j];
            lemma_first_difference(a, b, j);
            let k = choose|k: int| 0 <= k < 16 && a[k] != b[k] && forall|i: int| 0 <= i < k ==> a[i] == #[trigger] b[i];
            if a[k] < b[k] {
                lemma_radix_lex(a, b, base(64), k);
            } else {
                lemma_radix_lex(b, a, base(64), k);
            }
        }
        assert forall|i: int| 0 <= i < 16 implies self.0@[i] == other.0@[i] by {
            assert(a[15 - i] == b[15 - i]);
        }
        assert(self.0@ =~= other.0@);
        assert(self.0 == other.0);
    }

    /// The value of the binary digits `b`, kept to its lowest 1024 bits.
    pub fn from_binary_vec(binary_vec: &Vec<u64>) -> (r: U1024)
        requires
            digits_below(binary_vec@, 2),
        ensures
            r.value() == bin_value(binary_vec@) % (pow(2, 1024) as nat),
    {
        let b = binary_vec;
        let mut p: Vec<u64> = Vec::new();
        if b.len() <= 1024 {
            let mut k: usize = 0;
            while k < 1024 - b.len()
                invariant
                    b.len() <= 1024,
                    k <= 1024 - b.len(),
                    p.len() == k,
                    forall|j: int| 0 <= j < k ==> #[trigger] p@[j] == 0,
                decreases 1024 - b.len() - k,
            {
                p.push(0);
                k = k + 1;
            }
            let ghost zeros = p@;
            p.extend_from_slice(b.as_slice());
            proof {
                assert(p@ =~= zeros + b@);
                assert(digits_below(zeros, 2));
                lemma_bin_zero(zeros);
                lemma_radix_append(zeros, b@, 2);
                lemma_radix_bound(b@, 2);
                lemma_pow_increases(2, b.len() as nat, 1024);
                lemma_pow_positive(2, b.len() as nat);
                assert(bin_value(zeros) == 0);
                lemma_mul_basics(pow(2, b.len() as nat));
                assert(bin_value(p@) == bin_value(b@));
                lemma_small_mod(bin_value(b@), pow(2, 1024) as nat);
                assert(bin_value(p@) == bin_value(b@) % (pow(2, 1024) as nat));
            }
        } else {
            let mut k: usize = b.len() - 1024;
            while k < b.len()
                invariant
                    b.len() > 1024,
                    b.len() - 1024 <= k <= b.len(),
                    p@ == b@.subrange(b.len() - 1024, k as int),
                decreases b.len() - k,
            {
                p.push(b[k]);
                k = k + 1;
            }
            proof {
                let a = b@.subrange(0, b.len() - 1024);
                assert(b@ =~= a + p@);
                lemma_binary_subrange(b@, b.len() - 1024, b.len() as int);
                lemma_radix_split(a, p@, 2);
                assert(bin_value(p@) == bin_value(b@) % (pow(2, 1024) as nat));
            }
        }
        assert(digits_below(p@, 2)) by {
            if b.len() <= 1024 {
                assert forall|i: int| 0 <= i < p@.len() implies #[trigger] p@[i] < 2 by {
                    if i >= 1024 - b.len() {
                        assert(p@[i] == b@[i - (1024 - b.len())]);
                    }
                }
            } else {
                lemma_binary_subrange(b@, b.len() - 1024, b.len() as int);
            }
        }
        let ghost target = bin_value(binary_vec@) % (pow(2, 1024) as nat);
        assert(bin_value(p@) == target);
        let mut words: [u64; 16] = [0u64; 16];
        let mut i: usize = 0;
        while i < 16
            invariant
                bin_value(p@) == target,
                p.len() == 1024,
                digits_below(p@, 2),
                i <= 16,
                forall|j: int|
                    0 <= j < i ==> #[trigger] words@[j] as nat == bin_value(
                        p@.subrange(1024 - 64 * (j + 1), 1024 - 64 * j),
                    ),
            decreases 16 - i,
        {
            let v = bin_slice(&p, 1024 - 64 * (i + 1), 1024 - 64 * i);
            words[i] = v;
            i = i + 1;
        }
        let r = U1024(words);
        proof {
            let cv = chunk_values(p@, 64, 16);
            assert forall|j: int| 0 <= j < 16 implies #[trigger] r.words_msb()[j] == cv[j] by {
                assert(r.words_msb()[j] == words@[15 - j]);
                assert(1024 - 64 * (15 - j + 1) == 64 * j);
            }
            assert(r.words_msb() =~= cv);
            lemma_concat_chunks(p@, 64, 16);
            r.lemma_words_below();
            lemma_concat_digits(cv, 64);
        }
        r
    }

    /// The value of a 128-bit integer.
    pub fn from_u128(x: u128) -> (r: U1024)
        ensures
            r.value() == x,
    {
        let d = n_to_binary_vec(&x, &0);
        proof {
            lemma_digits_value(x as nat, d.len() as nat);
            lemma_small_mod(x as nat, pow(2, d.len() as nat) as nat);
            crate::bits::lemma_pow2_128();
            lemma_pow_increases(2, 128, 1024);
            lemma_small_mod(x as nat, pow(2, 1024) as nat);
        }
        U1024::from_binary_vec(&d)
    }

    /// The 1024 binary digits of the value, most significant first.
    pub fn to_digits(&self) -> (r: Vec<u64>)
        ensures
            r@ == self.digits_of(),
    {
        let mut r: Vec<u64> = Vec::new();
        let mut j: usize = 0;
        while j < 16
            invariant
                j <= 16,
                r@ == concat_digits(self.words_msb().take(j as int), 64),
            decreases 16 - j,
        {
            let ch = low_digits(self.0[15 - j] as u128, 64);
            assert(self.words_msb().take(j as int + 1).drop_last() =~= self.words_msb().take(j as int));
            r.extend_from_slice(ch.as_slice());
            j = j + 1;
        }
        assert(self.words_msb().take(16) =~= self.words_msb());
        r
    }

    /// The words, most significant first, each as its 64 binary digits.
    pub fn u1024_to_binary_vec(&self) -> (r: Vec<Vec<u64>>)
        ensures
            r.len() == 16,
            forall|j: int| 0 <= j < 16 ==> #[trigger] r@[j]@ == digits(self.0@[15 - j] as nat, 64),
    {
        let mut r: Vec<Vec<u64>> = Vec::new();
        let mut j: usize = 0;
        while j < 16
            invariant
                j <= 16,
                r.len() == j,
                forall|i: int| 0 <= i < j ==> #[trigger] r@[i]@ == digits(self.0@[15 - i] as nat, 64),
            decreases 16 - j,
        {
            r.push(low_digits(self.0[15 - j] as u128, 64));
            j = j + 1;
        }
        r
    }

    /// The value with bit `i` (from the least significant end) inverted.
    pub fn flip_bit(&self, i: usize) -> (r: U1024)
        requires
            i < 1024,
        ensures
            r.digits_of() == self.digits_of().update(1023 - i, (1 - self.bit(i as int)) as u64),
    {
        let mut d = self.to_digits();
        proof {
            self.lemma_digits_of();
        }
        let pos: usize = 1023 - i;
        let flipped: u64 = 1 - d[pos];
        d.set(pos, flipped);
        let ghost e = self.digits_of().update(1023 - i, (1 - self.bit(i as int)) as u64);
        assert(d@ =~= e);
        assert(digits_below(d@, 2)) by {
            assert forall|k: int| 0 <= k < d@.len() implies #[trigger] d@[k] < 2 by {
                if k != pos {
                    assert(d@[k] == self.digits_of()[k]);
                }
            }
        }
        let r = U1024::from_binary_vec(&d);
        proof {
            lemma_radix_bound(d@, 2);
            lemma_small_mod(bin_value(d@), pow(2, 1024) as nat);
            r.lemma_digits_of();
            lemma_value_digits(d@);
        }
        r
    }

    /// Whether this value is below `other`.
    pub fn lt(&self, other: &U1024) -> (r: bool)
        ensures
            r == (self.value() < other.value()),
    {
        let mut j: usize = 0;
        while j < 16
            invariant
                j <= 16,
                forall|k: int| 0 <= k < j ==> self.words_msb()[k] == #[trigger] other.words_msb()[k],
            decreases 16 - j,
        {
            let a = self.0[15 - j];
            let b = other.0[15 - j];
            if a != b {
                proof {
                    assert(self.words_msb()[j as int] == a);
                    assert(other.words_msb()[j as int] == b);
                    lemma_base64();
                    self.lemma_words_below();
                    other.lemma_words_below();
                    if a < b {
                        lemma_radix_lex(self.words_msb(), other.words_msb(), base(64), j as int);
                    } else {
                        lemma_radix_lex(other.words_msb(), self.words_msb(), base(64), j as int);
                    }
                }
                return a < b;
            }
            j = j + 1;
        }
        assert(self.words_msb() =~= other.words_msb());
        false
    }
}

/// Where two sequences differ, they differ first somewhere.
proof fn lemma_first_difference(a: Seq<u64>, b: Seq<u64>, j: int)
    requires
        a.len() == 16,
        b.len() == 16,
        0 <= j < 16,
        a[j] != b[j],
    ensures
        exists|k: int| 0 <= k < 16 && a[k] != b[k] && forall|i: int| 0 <= i < k ==> a[i] == #[trigger] b[i],
    decreases j,
{
    if forall|i: int| 0 <= i < j ==> a[i] == #[trigger] b[i] {
    } else {
        let i = choose|i: int| 0 <= i < j && a[i] != b[i];
        lemma_first_difference(a, b, i);
    }
}

/// Two to the 64th power, written out.
pub proof fn lemma_base64()
    ensures
        base(64) == 0x1_0000_0000_0000_0000,
{
    vstd::arithmetic::power2::lemma2_to64();
    vstd::arithmetic::power2::lemma_pow2(64);
}

/// Of two digit sequences of one length that first differ at `j`, the one with the
/// smaller digit there has the smaller value.
pub proof fn lemma_radix_lex(a: Seq<u64>, b: Seq<u64>, base_: nat, j: int)
    requires
        a.len() == b.len(),
        0 <= j < a.len(),
        digits_below(a, base_),
        digits_below(b, base_),
        forall|k: int| 0 <= k < j ==> a[k] == #[trigger] b[k],
        a[j] < b[j],
    ensures
        radix_value(a, base_) < radix_value(b, base_),
{
    let a1 = a.subrange(0, j + 1);
    let b1 = b.subrange(0, j + 1);
    let ra = a.subrange(j + 1, a.len() as int);
    let rb = b.subrange(j + 1, b.len() as int);
    assert(a =~= a1 + ra);
    assert(b =~= b1 + rb);
    assert(a1.drop_last() =~= b1.drop_last());
    lemma_radix_append(a1, ra, base_);
    lemma_radix_append(b1, rb, base_);
    assert(digits_below(ra, base_)) by {
        assert forall|k: int| 0 <= k < ra.len() implies #[trigger] ra[k] < base_ by {
            assert(ra[k] == a[j + 1 + k]);
        }
    }
    lemma_radix_bound(ra, base_);
    let q = pow(base_ as int, ra.len());
    let x = radix_value(a1, base_) as int;
    let y = radix_value(b1, base_) as int;
    assert(x + 1 <= y);
    let u = radix_value(ra, base_) as int;
    let v = radix_value(rb, base_) as int;
    assert(x * q + u < y * q + v) by (nonlinear_arith)
        requires
            x + 1 <= y,
            u < q,
            u >= 0,
            v >= 0,
            x >= 0,
    ;
}

/// Packs sixteen 64-digit binary words, most significant first, into a value.
pub fn binary_to_u1024(binary_vec: &Vec<Vec<u64>>) -> (r: U1024)
    requires
        binary_vec.len() == 16,
        forall|j: int|
            0 <= j < 16 ==> digits_below(#[trigger] binary_vec@[j]@, 2) && bin_value(
                binary_vec@[j]@,
            ) <= u64::MAX,
    ensures
        forall|i: int| 0 <= i < 16 ==> #[trigger] r.0@[i] as nat == bin_value(binary_vec@[15 - i]@),
{
    let mut words: [u64; 16] = [0u64; 16];
    let mut i: usize = 0;
    while i < 16
        invariant
            i <= 16,
            binary_vec.len() == 16,
            forall|j: int|
                0 <= j < 16 ==> digits_below(#[trigger] binary_vec@[j]@, 2) && bin_value(
                    binary_vec@[j]@,
                ) <= u64::MAX,
            forall|j: int| 0 <= j < i ==> #[trigger] words@[j] as nat == bin_value(binary_vec@[15 - j]@),
        decreases 16 - i,
    {
        let v = crate::bits::binary_to_n(&binary_vec[15 - i]);
        words[i] = v as u64;
        i = i + 1;
    }
    U1024(words)
}

/// The lowest `width` binary digits of `tag`, most significant first.
pub fn collect_n_digits_u1024(width: &u64, tag: &U1024) -> (r: Vec<u64>)
    requires
        *width <= 1024,
    ensures
        r@ == digits(tag.value(), *width as nat),
{
    let d = tag.to_digits();
    proof {
        tag.lemma_digits_of();
    }
    let w = *width as usize;
    let mut r: Vec<u64> = Vec::new();
    let mut k: usize = 1024 - w;
    while k < 1024
        invariant
            d.len() == 1024,
            w <= 1024,
            1024 - w <= k <= 1024,
            r@ == d@.subrange(1024 - w, k as int),
        decreases 1024 - k,
    {
        r.push(d[k]);
        k = k + 1;
    }
    proof {
        let a = d@.subrange(0, 1024 - w);
        assert(d@ =~= a + r@);
        lemma_binary_subrange(d@, 1024 - w as int, 1024);
        lemma_radix_split(a, r@, 2);
        lemma_value_digits(r@);
        lemma_digits_value(tag.value(), w as nat);
        lemma_value_digits(digits(tag.value(), w as nat));
    }
    r
}

} // verus!
