//! Modified signed-digit numbers in radix 4.
//!
//! A number is written with digits from -2 to 2, least significant first, so
//! that its value is the sum of `digit[i] * 4^i`. The encoder produces one
//! fixed digit sequence for each integer, without a zero digit at the top.

use rulinalg::vector::Vector;
use vstd::prelude::*;

verus! {

/// One signed digit.
pub type Digit = i8;

/// The value of a digit sequence, least significant digit first:
/// `s[0] + 4 * s[1] + 16 * s[2] + ...`.
pub open spec fn digits_value(s: Seq<i8>) -> int
    decreases s.len(),
{
    if s.len() == 0 {
        0
    } else {
        s[0] as int + 4 * digits_value(s.drop_first())
    }
}

/// The weight of the digit at place `k`: 4 to the power `k`.
pub open spec fn pow4(k: nat) -> int
    decreases k,
{
    if k == 0 {
        1
    } else {
        4 * pow4((k - 1) as nat)
    }
}

/// The sum of `s[i] * 4^i` over the first `k` digits.
pub open spec fn weighted_sum(s: Seq<i8>, k: nat) -> int
    decreases k,
{
    if k == 0 {
        0
    } else {
        weighted_sum(s, (k - 1) as nat) + s[k - 1] * pow4((k - 1) as nat)
    }
}

/// Every digit lies between -2 and 2.
pub open spec fn digits_in_range(s: Seq<i8>) -> bool {
    forall|i: int| 0 <= i < s.len() ==> -2 <= #[trigger] s[i] <= 2
}

/// The sequence has at least one digit and, unless it is a single digit, does
/// not end in a zero digit.
pub open spec fn is_minimal(s: Seq<i8>) -> bool {
    s.len() == 1 || (s.len() > 1 && s.last() != 0)
}

/// The digits of a magnitude: the low two bits are the digit, except that 3
/// is written as -1 with a carry of one into the rest. Zero has no digits.
pub open spec fn magnitude_digits(m: nat) -> Seq<i8>
    decreases m,
{
    if m == 0 {
        Seq::<i8>::empty()
    } else if m % 4 == 3 {
        seq![-1i8] + magnitude_digits(m / 4 + 1)
    } else {
        seq![(m % 4) as i8] + magnitude_digits(m / 4)
    }
}

/// Each digit replaced by its negative.
pub open spec fn negated(s: Seq<i8>) -> Seq<i8> {
    Seq::new(s.len(), |i: int| (-s[i]) as i8)
}

/// The digit sequence that stands for `n`: the single digit 0 for zero, the
/// digits of the magnitude for a positive number, and their negatives for a
/// negative one.
pub open spec fn spec_from_int(n: int) -> Seq<i8> {
    if n == 0 {
        seq![0i8]
    } else if n > 0 {
        magnitude_digits(n as nat)
    } else {
        negated(magnitude_digits((-n) as nat))
    }
}

/// The digit that a carry pass leaves for the sum of a digit and the carry
/// that came in.
pub open spec fn carried_digit(sum: int) -> int {
    if sum > 2 {
        sum - 4
    } else if sum < -2 {
        sum + 4
    } else {
        sum
    }
}

/// The carry that such a sum sends on.
pub open spec fn carry_out(sum: int) -> int {
    if sum > 2 {
        1
    } else if sum < -2 {
        -1
    } else {
        0
    }
}

/// One pass from the least significant digit up: a sum above 2 leaves
/// `sum - 4` and carries 1, a sum below -2 leaves `sum + 4` and carries -1.
/// A carry that is left at the end becomes a new top digit.
pub open spec fn carry_pass(s: Seq<i8>, carry: int) -> Seq<i8>
    decreases s.len(),
{
    if s.len() == 0 {
        if carry != 0 {
            seq![carry as i8]
        } else {
            Seq::<i8>::empty()
        }
    } else {
        seq![carried_digit(s[0] + carry) as i8] + carry_pass(
            s.drop_first(),
            carry_out(s[0] + carry),
        )
    }
}

/// Whether every sum of a digit and its incoming carry fits a digit's
/// machine type during a carry pass.
pub open spec fn carry_fits(s: Seq<i8>, carry: int) -> bool
    decreases s.len(),
{
    if s.len() == 0 {
        true
    } else {
        &&& -128 <= s[0] + carry <= 127
        &&& carry_fits(s.drop_first(), carry_out(s[0] + carry))
    }
}

/// The sequence without its zero digits at the top, down to one digit.
pub open spec fn strip_zeros(s: Seq<i8>) -> Seq<i8>
    decreases s.len(),
{
    if s.len() > 1 && s.last() == 0 {
        strip_zeros(s.drop_last())
    } else {
        s
    }
}

/// What normalising does to a digit sequence: a carry pass, then the zero
/// digits at the top are dropped.
pub open spec fn spec_normalize(s: Seq<i8>) -> Seq<i8> {
    strip_zeros(carry_pass(s, 0))
}

/// Appending a digit adds its weight; a zero digit adds nothing.
pub proof fn lemma_value_push(s: Seq<i8>, d: i8)
    ensures
        d == 0 ==> digits_value(s.push(d)) == digits_value(s),
        s.len() == 0 ==> digits_value(s.push(d)) == d,
    decreases s.len(),
{
    assert(s.push(d).len() > 0);
    if s.len() == 0 {
        assert(s.push(d).drop_first() =~= Seq::<i8>::empty());
        assert(digits_value(Seq::<i8>::empty()) == 0);
        assert(s.push(d)[0] == d);
    } else {
        assert(s.push(d).drop_first() =~= s.drop_first().push(d));
        assert(s.push(d)[0] == s[0]);
        lemma_value_push(s.drop_first(), d);
    }
}

/// The value of a digit in front of a sequence.
pub proof fn lemma_value_cons(d: i8, rest: Seq<i8>)
    ensures
        digits_value(seq![d] + rest) == d + 4 * digits_value(rest),
{
    assert((seq![d] + rest).drop_first() =~= rest);
}

/// The value is the sum over the first `k` digits plus the value of the
/// others, weighted by `4^k`.
pub proof fn lemma_value_split(s: Seq<i8>, k: nat)
    requires
        k <= s.len(),
    ensures
        digits_value(s) == weighted_sum(s, k) + pow4(k) * digits_value(s.skip(k as int)),
    decreases k,
{
    if k == 0 {
        assert(s.skip(0) =~= s);
    } else {
        let j = (k - 1) as nat;
        lemma_value_split(s, j);
        let upper = s.skip(j as int);
        assert(upper[0] == s[j as int]);
        assert(upper.drop_first() =~= s.skip(k as int));
        let a = s[j as int] as int;
        let b = digits_value(s.skip(k as int));
        let w = pow4(j);
        assert(digits_value(upper) == a + 4 * b);
        assert(w * (a + 4 * b) == a * w + (4 * w) * b) by (nonlinear_arith);
    }
}

/// The value of a digit sequence is the sum of `s[i] * 4^i` over all its
/// digits.
pub proof fn lemma_value_is_weighted_sum(s: Seq<i8>)
    ensures
        digits_value(s) == weighted_sum(s, s.len()),
{
    lemma_value_split(s, s.len());
    assert(s.skip(s.len() as int) =~= Seq::<i8>::empty());
    assert(pow4(s.len()) * 0 == 0);
}

/// The digits of a magnitude have that magnitude as their value, lie between
/// -1 and 2, and end in a digit that is not zero.
pub proof fn lemma_magnitude_digits(m: nat)
    ensures
        digits_value(magnitude_digits(m)) == m,
        forall|i: int|
            0 <= i < magnitude_digits(m).len() ==> -1 <= #[trigger] magnitude_digits(m)[i] <= 2,
        m > 0 ==> magnitude_digits(m).len() > 0 && magnitude_digits(m).last() != 0,
        m == 0 ==> magnitude_digits(m).len() == 0,
    decreases m,
{
    if m != 0 {
        let rest_m: nat = if m % 4 == 3 {
            m / 4 + 1
        } else {
            m / 4
        };
        let d: i8 = if m % 4 == 3 {
            -1i8
        } else {
            (m % 4) as i8
        };
        lemma_magnitude_digits(rest_m);
        let rest = magnitude_digits(rest_m);
        let all = magnitude_digits(m);
        assert(all =~= seq![d] + rest);
        lemma_value_cons(d, rest);
        assert forall|i: int| 0 <= i < all.len() implies -1 <= #[trigger] all[i] <= 2 by {
            if i > 0 {
                assert(all[i] == rest[i - 1]);
            }
        }
        if rest_m > 0 {
            assert(all.last() == rest.last());
        } else {
            assert(all.last() == d);
            assert(m < 4);
        }
    }
}

/// Negating every digit negates the value.
pub proof fn lemma_negated_value(s: Seq<i8>)
    requires
        forall|i: int| 0 <= i < s.len() ==> -127 <= #[trigger] s[i],
    ensures
        digits_value(negated(s)) == -digits_value(s),
    decreases s.len(),
{
    if s.len() > 0 {
        assert(negated(s).drop_first() =~= negated(s.drop_first()));
        assert(negated(s)[0] == -s[0]);
        assert forall|i: int| 0 <= i < s.drop_first().len() implies -127
            <= #[trigger] s.drop_first()[i] by {
            assert(s.drop_first()[i] == s[i + 1]);
        }
        lemma_negated_value(s.drop_first());
    }
}

/// A carry pass keeps the value, counting the carry that came in.
pub proof fn lemma_carry_pass_value(s: Seq<i8>, carry: int)
    requires
        -1 <= carry <= 1,
        carry_fits(s, carry),
    ensures
        digits_value(carry_pass(s, carry)) == digits_value(s) + carry,
    decreases s.len(),
{
    if s.len() == 0 {
        if carry != 0 {
            lemma_value_push(Seq::<i8>::empty(), carry as i8);
            assert(Seq::<i8>::empty().push(carry as i8) =~= seq![carry as i8]);
        }
    } else {
        let sum = s[0] + carry;
        lemma_carry_pass_value(s.drop_first(), carry_out(sum));
        lemma_value_cons(
            carried_digit(sum) as i8,
            carry_pass(s.drop_first(), carry_out(sum)),
        );
    }
}

/// A carry pass with no carry coming in leaves digits between -2 and 2 as
/// they are.
pub proof fn lemma_carry_pass_identity(s: Seq<i8>)
    requires
        digits_in_range(s),
    ensures
        carry_pass(s, 0) == s,
        carry_fits(s, 0),
    decreases s.len(),
{
    if s.len() == 0 {
        assert(carry_pass(s, 0) =~= s);
    } else {
        assert(-2 <= s[0] <= 2);
        assert forall|i: int| 0 <= i < s.drop_first().len() implies -2
            <= #[trigger] s.drop_first()[i] <= 2 by {
            assert(s.drop_first()[i] == s[i + 1]);
        }
        lemma_carry_pass_identity(s.drop_first());
        assert(seq![s[0]] + s.drop_first() =~= s);
    }
}

/// Dropping the zero digits at the top keeps the value and leaves a minimal
/// sequence, unless there was no digit at all.
pub proof fn lemma_strip_zeros(s: Seq<i8>)
    ensures
        digits_value(strip_zeros(s)) == digits_value(s),
        s.len() > 0 ==> is_minimal(strip_zeros(s)),
        s.len() == 0 ==> strip_zeros(s) == s,
        strip_zeros(s).len() <= s.len(),
        forall|i: int| 0 <= i < strip_zeros(s).len() ==> strip_zeros(s)[i] == s[i],
    decreases s.len(),
{
    if s.len() > 1 && s.last() == 0 {
        lemma_strip_zeros(s.drop_last());
        lemma_value_push(s.drop_last(), 0i8);
        assert(s.drop_last().push(0i8) =~= s);
    }
}

/// The digit sequence of an integer has that integer as its value, has all
/// its digits between -2 and 2, and is minimal; zero is the single digit 0.
pub proof fn lemma_from_int(n: int)
    ensures
        digits_value(spec_from_int(n)) == n,
        digits_in_range(spec_from_int(n)),
        is_minimal(spec_from_int(n)),
        n == 0 ==> spec_from_int(n) == seq![0i8],
{
    if n == 0 {
        lemma_value_push(Seq::<i8>::empty(), 0i8);
        assert(Seq::<i8>::empty().push(0i8) =~= seq![0i8]);
    } else if n > 0 {
        lemma_magnitude_digits(n as nat);
    } else {
        let m = (-n) as nat;
        lemma_magnitude_digits(m);
        lemma_negated_value(magnitude_digits(m));
        let s = magnitude_digits(m);
        assert forall|i: int| 0 <= i < negated(s).len() implies -2 <= #[trigger] negated(s)[i]
            <= 2 by {
            assert(-1 <= s[i] <= 2);
        }
        assert(negated(s).last() == -s.last());
    }
}

/// In a sequence of digits between -2 and 2 whose value fits 32 bits, the
/// value of every upper part stays within the same bound.
pub proof fn lemma_suffix_values(s: Seq<i8>, k: int)
    requires
        digits_in_range(s),
        -0x8000_0000 <= digits_value(s) <= 0x8000_0000,
        0 <= k <= s.len(),
    ensures
        -0x8000_0000 <= digits_value(s.skip(k)) <= 0x8000_0000,
        k < s.len() ==> digits_value(s.skip(k)) == s[k] + 4 * digits_value(s.skip(k + 1)),
    decreases k,
{
    if k == 0 {
        assert(s.skip(0) =~= s);
    } else {
        lemma_suffix_values(s, k - 1);
        assert(s.skip(k - 1).drop_first() =~= s.skip(k));
        assert(s.skip(k - 1)[0] == s[k - 1]);
        assert(-2 <= s[k - 1] <= 2);
    }
    if k < s.len() {
        assert(s.skip(k).drop_first() =~= s.skip(k + 1));
        assert(s.skip(k)[0] == s[k]);
    }
}

/// Normalises a digit sequence: propagates carries from the least
/// significant digit up, so that a digit sum outside -2 to 2 is brought back
/// by 4 and carried on, and then drops zero digits at the top down to a
/// single digit. The value is kept.
pub fn normalize(v: Vec<Digit>) -> (r: Vec<Digit>)
    requires
        carry_fits(v@, 0),
    ensures
        r@ == spec_normalize(v@),
        digits_value(r@) == digits_value(v@),
        v@.len() > 0 ==> is_minimal(r@),
        v@.len() == 0 ==> r@.len() == 0,
        digits_in_range(v@) ==> r@ == strip_zeros(v@) && digits_in_range(r@),
{
    let ghost orig = v@;
    let mut v = v;
    let mut carry: i8 = 0;
    let mut i: usize = 0;
    proof {
        assert(orig.skip(0) =~= orig);
        assert(v@.take(0) + carry_pass(orig, 0) =~= carry_pass(orig, 0));
    }
    while i < v.len()
        invariant
            i <= v@.len(),
            v@.len() == orig.len(),
            -1 <= carry <= 1,
            v@.skip(i as int) == orig.skip(i as int),
            carry_fits(orig.skip(i as int), carry as int),
            v@.take(i as int) + carry_pass(orig.skip(i as int), carry as int) == carry_pass(
                orig,
                0,
            ),
        decreases v@.len() - i,
    {
        let ghost before = v@;
        let ghost rest = orig.skip(i as int);
        proof {
            assert(rest[0] == orig[i as int]);
            assert(v@[i as int] == v@.skip(i as int)[0]);
            assert(rest.drop_first() =~= orig.skip(i + 1));
        }
        let sum: i8 = v[i] + carry;
        let digit: i8;
        if sum > 2 {
            digit = sum - 4;
            carry = 1;
        } else if sum < -2 {
            digit = sum + 4;
            carry = -1;
        } else {
            digit = sum;
            carry = 0;
        }
        v.set(i, digit);
        proof {
            assert(v@.skip(i + 1) =~= before.skip(i + 1));
            assert(before.skip(i + 1) =~= before.skip(i as int).drop_first());
            assert(v@.take(i + 1) =~= before.take(i as int) + seq![digit]);
            assert(v@.take(i + 1) + carry_pass(orig.skip(i + 1), carry as int) =~= before.take(
                i as int,
            ) + (seq![digit] + carry_pass(orig.skip(i + 1), carry as int)));
        }
        i += 1;
    }
    proof {
        assert(orig.skip(i as int).len() == 0);
        assert(v@.take(i as int) =~= v@);
    }
    if carry != 0 {
        v.push(carry);
    }
    proof {
        assert(v@ =~= carry_pass(orig, 0));
    }
    let ghost carried = v@;
    while v.len() > 1 && v[v.len() - 1] == 0
        invariant
            strip_zeros(v@) == strip_zeros(carried),
        decreases v@.len(),
    {
        proof {
            assert(v@.drop_last() =~= v@.take(v@.len() - 1));
        }
        let _ = v.pop();
    }
    proof {
        assert(strip_zeros(v@) == v@);
        lemma_strip_zeros(carried);
        lemma_carry_pass_value(orig, 0);
        if digits_in_range(orig) {
            lemma_carry_pass_identity(orig);
            assert forall|k: int| 0 <= k < v@.len() implies -2 <= #[trigger] v@[k] <= 2 by {
                assert(v@[k] == orig[k]);
            }
        }
    }
    v
}

/// A number in modified signed-digit form. Its digits lie between -2 and 2,
/// the top digit is not zero unless it is the only one, and its value fits
/// 32 bits.
pub struct Msd(Vec<Digit>);

impl View for Msd {
    type V = Seq<i8>;

    closed spec fn view(&self) -> Seq<i8> {
        self.0@
    }
}

impl Msd {
    #[verifier::type_invariant]
    spec fn well_formed(self) -> bool {
        &&& digits_in_range(self.0@)
        &&& is_minimal(self.0@)
        &&& i32::MIN <= digits_value(self.0@) <= i32::MAX
    }

    /// Encodes `n`. The digits are those of `spec_from_int(n)`: their value is
    /// `n`, each lies between -2 and 2, and zero is the single digit 0.
    pub fn from_int(n: i32) -> (msd: Msd)
        ensures
            msd@ == spec_from_int(n as int),
            digits_value(msd@) == n,
            digits_in_range(msd@),
            is_minimal(msd@),
    {
        proof {
            lemma_from_int(n as int);
        }
        if n == 0 {
            let zero: Vec<Digit> = vec![0];
            proof {
                assert(zero@ =~= seq![0i8]);
            }
            return Msd(zero);
        }
        let mut out: Vec<Digit> = Vec::with_capacity(8);
        let wide: i64 = n as i64;
        let start: u32 = if wide < 0 {
            (-wide) as u32
        } else {
            wide as u32
        };
        let mut m: u32 = start;
        proof {
            assert(out@ + magnitude_digits(m as nat) =~= magnitude_digits(start as nat));
        }
        while m != 0
            invariant
                m <= 0x8000_0000,
                out@ + magnitude_digits(m as nat) == magnitude_digits(start as nat),
            decreases m,
        {
            let ghost prev = m;
            let ghost before = out@;
            let low: u32 = m & 3;
            proof {
                assert(low == prev % 4) by (bit_vector)
                    requires
                        low == prev & 3,
                ;
            }
            let rem: i8 = low as i8;
            m = m >> 2;
            proof {
                assert(m == prev / 4) by (bit_vector)
                    requires
                        m == prev >> 2,
                ;
            }
            let digit: i8 = if rem > 2 {
                rem - 4
            } else {
                rem
            };
            out.push(digit);
            if rem > 2 {
                m += 1;
            }
            proof {
                assert(magnitude_digits(prev as nat) == seq![digit] + magnitude_digits(m as nat));
                assert(out@ + magnitude_digits(m as nat) =~= before + (seq![digit]
                    + magnitude_digits(m as nat)));
            }
        }
        proof {
            assert(out@ =~= magnitude_digits(start as nat));
            lemma_magnitude_digits(start as nat);
        }
        if n < 0 {
            let ghost plain = out@;
            let mut i: usize = 0;
            while i < out.len()
                invariant
                    i <= out@.len(),
                    out@.len() == plain.len(),
                    forall|j: int| 0 <= j < plain.len() ==> -1 <= #[trigger] plain[j] <= 2,
                    forall|j: int| 0 <= j < i ==> out@[j] == -plain[j],
                    forall|j: int| i <= j < plain.len() ==> out@[j] == plain[j],
                decreases out@.len() - i,
            {
                let d: i8 = out[i];
                proof {
                    assert(-1 <= plain[i as int] <= 2);
                }
                out.set(i, -d);
                i += 1;
            }
            proof {
                assert(out@ =~= negated(plain));
            }
        }
        proof {
            assert(out@ == spec_from_int(n as int));
            lemma_carry_pass_identity(out@);
            lemma_strip_zeros(out@);
        }
        Msd(normalize(out))
    }

    /// Decodes the digits: the sum of `digit[i] * 4^i`.
    pub fn to_int(&self) -> (n: i32)
        ensures
            n == digits_value(self@),
    {
        proof {
            use_type_invariant(self);
            lemma_suffix_values(self.0@, self.0@.len() as int);
        }
        let mut acc: i64 = 0;
        let mut i: usize = self.0.len();
        while i > 0
            invariant
                i <= self.0@.len(),
                digits_in_range(self.0@),
                i32::MIN <= digits_value(self.0@) <= i32::MAX,
                acc == digits_value(self.0@.skip(i as int)),
                -0x8000_0000 <= acc <= 0x8000_0000,
            decreases i,
        {
            i -= 1;
            proof {
                lemma_suffix_values(self.0@, i as int);
            }
            acc = acc * 4 + self.0[i] as i64;
        }
        proof {
            assert(self.0@.skip(0) =~= self.0@);
        }
        acc as i32
    }

    /// The digits, least significant first.
    pub fn as_slice(&self) -> (digits: &[Digit])
        ensures
            digits@ == self@,
    {
        self.0.as_slice()
    }

    /// The digits as a vector of the linear-algebra crate.
    ///
    /// Calls `rulinalg::vector::Vector::new` on a copy of the digits. Taken on
    /// trust: the vector holds the digits it was made from, in their order.
    #[verifier::external_body]
    pub fn as_vector(&self) -> (v: Vector<Digit>)
        ensures
            vector_digits(v) == self@,
    {
        Vector::new(self.0.clone())
    }
}

/// The vector type of the linear-algebra crate, carried through as it is.
#[verifier::external_type_specification]
#[verifier::external_body]
#[verifier::reject_recursive_types(T)]
pub struct ExVector<T>(Vector<T>);

/// The digits that a vector holds, in their order.
pub uninterp spec fn vector_digits(v: Vector<i8>) -> Seq<i8>;

/// A copy of the digits that a vector holds.
///
/// Calls `rulinalg::vector::Vector::data`, which hands out the vector's
/// underlying data. Taken on trust: the copy is what the vector holds.
#[verifier::external_body]
pub(crate) fn vector_to_vec(v: &Vector<Digit>) -> (digits: Vec<Digit>)
    ensures
        digits@ == vector_digits(*v),
{
    v.data().clone()
}

} // verus!
