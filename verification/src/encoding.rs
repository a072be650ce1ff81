//! The layout of the store: the names of its parts, and keys and values as
//! bytes of decimal text.
//!
//! A `factors` key is the entity, a colon and the prime; a `postings` key is
//! the prime, a colon and the entity. A value is an exponent in decimal, with
//! a minus sign in front when it is negative.

use vstd::prelude::*;

verus! {

/// The name of the partition keyed by entity, then prime.
pub const FACTORS: &'static str = "factors";

/// The name of the partition keyed by prime, then entity.
pub const POSTINGS: &'static str = "postings";

/// The directory of the store, below the ledger's base directory.
pub const STORE_DIR: &'static str = "db";

/// The file of the event log, below the ledger's base directory.
pub const LOG_FILE: &'static str = "event.log";

/// The byte of `0`.
pub const ZERO: u8 = 48;

/// The byte of `9`.
pub const NINE: u8 = 57;

/// The byte of `:`.
pub const COLON: u8 = 58;

/// The byte of `-`.
pub const MINUS: u8 = 45;

/// The byte of `+`.
pub const PLUS: u8 = 43;

/// Whether a byte is one of `0` to `9`.
pub open spec fn is_digit(b: u8) -> bool {
    ZERO <= b <= NINE
}

/// Whether every byte is a decimal digit.
pub open spec fn all_digits(s: Seq<u8>) -> bool {
    forall|i: int| 0 <= i < s.len() ==> is_digit(#[trigger] s[i])
}

/// The decimal text of a natural number, without leading zeros.
pub open spec fn decimal(n: nat) -> Seq<u8>
    decreases n,
{
    if n < 10 {
        seq![(ZERO + n) as u8]
    } else {
        decimal(n / 10).push((ZERO + n % 10) as u8)
    }
}

/// The number that a run of decimal digits stands for.
pub open spec fn decimal_value(s: Seq<u8>) -> nat
    decreases s.len(),
{
    if s.len() == 0 {
        0
    } else {
        (decimal_value(s.drop_last()) * 10 + (s.last() - ZERO)) as nat
    }
}

/// The decimal text of an integer: a minus sign in front of a negative one.
pub open spec fn signed_decimal(n: int) -> Seq<u8> {
    if n < 0 {
        seq![MINUS] + decimal((-n) as nat)
    } else {
        decimal(n as nat)
    }
}

/// The key of an entity's exponent for a prime in the `factors` partition.
pub open spec fn spec_factors_key(entity: u64, prime: u32) -> Seq<u8> {
    decimal(entity as nat) + seq![COLON] + decimal(prime as nat)
}

/// The key of the same exponent in the `postings` partition.
pub open spec fn spec_postings_key(prime: u32, entity: u64) -> Seq<u8> {
    decimal(prime as nat) + seq![COLON] + decimal(entity as nat)
}

/// The digits of a value's text: what follows a sign in front, if there is
/// one.
pub open spec fn unsigned_part(s: Seq<u8>) -> Seq<u8> {
    if s.len() > 0 && (s[0] == MINUS || s[0] == PLUS) {
        s.drop_first()
    } else {
        s
    }
}

/// The exponent that a value's bytes stand for: an optional `+` or `-`, then
/// at least one decimal digit and nothing else, the number fitting 32 bits.
/// Any other bytes stand for nothing.
pub open spec fn spec_parse_exponent(s: Seq<u8>) -> Option<i32> {
    let digits = unsigned_part(s);
    let value: int = if s.len() > 0 && s[0] == MINUS {
        -(decimal_value(digits) as int)
    } else {
        decimal_value(digits) as int
    };
    if digits.len() == 0 || !all_digits(digits) {
        None
    } else if i32::MIN <= value <= i32::MAX {
        Some(value as i32)
    } else {
        None
    }
}

/// The decimal text of a number is made of digits, is not empty, and stands
/// for that number.
pub proof fn lemma_decimal(n: nat)
    ensures
        decimal(n).len() >= 1,
        all_digits(decimal(n)),
        decimal_value(decimal(n)) == n,
    decreases n,
{
    if n < 10 {
        let s = decimal(n);
        assert(s.drop_last() =~= Seq::<u8>::empty());
        assert(decimal_value(Seq::<u8>::empty()) == 0);
        assert(s.last() == ZERO + n);
    } else {
        lemma_decimal(n / 10);
        let head = decimal(n / 10);
        let s = decimal(n);
        assert(s.drop_last() =~= head);
        assert(s.last() == ZERO + n % 10);
        assert forall|i: int| 0 <= i < s.len() implies is_digit(#[trigger] s[i]) by {
            if i < head.len() {
                assert(s[i] == head[i]);
            }
        }
    }
}

/// Different numbers have different decimal texts.
pub proof fn lemma_decimal_injective(a: nat, b: nat)
    requires
        decimal(a) == decimal(b),
    ensures
        a == b,
{
    lemma_decimal(a);
    lemma_decimal(b);
}

/// The number that a run of digits stands for is at least the number that
/// any of its beginnings stands for.
pub proof fn lemma_decimal_value_grows(s: Seq<u8>, k: int)
    requires
        all_digits(s),
        0 <= k <= s.len(),
    ensures
        decimal_value(s.take(k)) <= decimal_value(s),
    decreases s.len(),
{
    if k == s.len() {
        assert(s.take(k) =~= s);
    } else {
        let front = s.drop_last();
        assert forall|i: int| 0 <= i < front.len() implies is_digit(#[trigger] front[i]) by {
            assert(front[i] == s[i]);
        }
        lemma_decimal_value_grows(front, k);
        assert(front.take(k) =~= s.take(k));
        assert(is_digit(s[s.len() - 1]));
    }
}

/// A value's text reads back as the exponent it was written from.
pub proof fn lemma_parse_exponent_text(n: i32)
    ensures
        spec_parse_exponent(signed_decimal(n as int)) == Some(n),
{
    let s = signed_decimal(n as int);
    if n < 0 {
        let m = (-(n as int)) as nat;
        lemma_decimal(m);
        assert(s[0] == MINUS);
        assert(s.drop_first() =~= decimal(m));
    } else {
        lemma_decimal(n as nat);
        assert(is_digit(s[0]));
    }
}

/// Two texts of the form number, colon, number are equal only when both
/// numbers are.
pub proof fn lemma_pair_text_injective(left_a: nat, right_a: nat, left_b: nat, right_b: nat)
    requires
        decimal(left_a) + seq![COLON] + decimal(right_a) == decimal(left_b) + seq![COLON] + decimal(right_b),
    ensures
        left_a == left_b,
        right_a == right_b,
{
    lemma_decimal(left_a);
    lemma_decimal(left_b);
    lemma_decimal(right_a);
    lemma_decimal(right_b);
    let text_a = decimal(left_a) + seq![COLON] + decimal(right_a);
    let text_b = decimal(left_b) + seq![COLON] + decimal(right_b);
    let len_a = decimal(left_a).len() as int;
    let len_b = decimal(left_b).len() as int;
    assert(text_a[len_a] == COLON);
    assert(text_b[len_b] == COLON);
    if len_a < len_b {
        assert(text_b[len_a] == decimal(left_b)[len_a]);
        assert(is_digit(decimal(left_b)[len_a]));
    }
    if len_b < len_a {
        assert(text_a[len_b] == decimal(left_a)[len_b]);
        assert(is_digit(decimal(left_a)[len_b]));
    }
    assert(len_a == len_b);
    assert(decimal(left_a) =~= text_a.take(len_a));
    assert(decimal(left_b) =~= text_b.take(len_b));
    assert(decimal(right_a) =~= text_a.skip(len_a + 1));
    assert(decimal(right_b) =~= text_b.skip(len_b + 1));
    lemma_decimal_injective(left_a, left_b);
    lemma_decimal_injective(right_a, right_b);
}

/// No two pairs of entity and prime share a key, in either partition.
pub proof fn lemma_keys_injective(entity_a: u64, prime_a: u32, entity_b: u64, prime_b: u32)
    ensures
        spec_factors_key(entity_a, prime_a) == spec_factors_key(entity_b, prime_b) ==> entity_a == entity_b && prime_a == prime_b,
        spec_postings_key(prime_a, entity_a) == spec_postings_key(prime_b, entity_b) ==> entity_a == entity_b && prime_a == prime_b,
{
    if spec_factors_key(entity_a, prime_a) == spec_factors_key(entity_b, prime_b) {
        lemma_pair_text_injective(entity_a as nat, prime_a as nat, entity_b as nat, prime_b as nat);
    }
    if spec_postings_key(prime_a, entity_a) == spec_postings_key(prime_b, entity_b) {
        lemma_pair_text_injective(prime_a as nat, entity_a as nat, prime_b as nat, entity_b as nat);
    }
}

/// Appends the decimal text of `n` to `out`.
pub fn push_decimal(out: &mut Vec<u8>, n: u64)
    ensures
        final(out)@ == old(out)@ + decimal(n as nat),
{
    let ghost start = out@;
    let mut low: Vec<u8> = Vec::new();
    let mut m: u64 = n;
    proof {
        assert(decimal(m as nat) + Seq::new(0, |j: int| low@[0 - 1 - j]) =~= decimal(n as nat));
    }
    while m >= 10
        invariant
            decimal(m as nat) + Seq::new(low@.len(), |j: int| low@[low@.len() - 1 - j]) == decimal(
                n as nat,
            ),
        decreases m,
    {
        let ghost before = low@;
        let ghost prev = m;
        let d: u8 = ZERO + (m % 10) as u8;
        low.push(d);
        m = m / 10;
        proof {
            let old_tail = Seq::new(before.len(), |j: int| before[before.len() - 1 - j]);
            let new_tail = Seq::new(low@.len(), |j: int| low@[low@.len() - 1 - j]);
            assert(new_tail =~= seq![d] + old_tail);
            assert(decimal(prev as nat) == decimal(m as nat).push(d));
            assert(decimal(m as nat) + new_tail =~= decimal(prev as nat) + old_tail);
        }
    }
    out.push(ZERO + m as u8);
    let mut i: usize = low.len();
    while i > 0
        invariant
            i <= low@.len(),
            m < 10,
            out@ == start + decimal(m as nat) + Seq::new(
                (low@.len() - i) as nat,
                |j: int| low@[low@.len() - 1 - j],
            ),
        decreases i,
    {
        let ghost before = out@;
        i -= 1;
        out.push(low[i]);
        proof {
            assert(out@ =~= start + decimal(m as nat) + Seq::new(
                (low@.len() - i) as nat,
                |j: int| low@[low@.len() - 1 - j],
            ));
        }
    }
    proof {
        assert(out@ =~= start + (decimal(m as nat) + Seq::new(
            low@.len(),
            |j: int| low@[low@.len() - 1 - j],
        )));
    }
}

/// The value bytes of an exponent.
pub fn exponent_text(n: i32) -> (text: Vec<u8>)
    ensures
        text@ == signed_decimal(n as int),
        spec_parse_exponent(text@) == Some(n),
{
    let mut text: Vec<u8> = Vec::new();
    let wide: i64 = n as i64;
    if wide < 0 {
        text.push(MINUS);
        push_decimal(&mut text, (-wide) as u64);
    } else {
        push_decimal(&mut text, wide as u64);
    }
    proof {
        assert(text@ =~= signed_decimal(n as int));
        lemma_parse_exponent_text(n);
    }
    text
}

/// The `factors` key of an entity and a prime: `"{entity}:{prime}"`.
pub fn factors_key(entity: u64, prime: u32) -> (key: Vec<u8>)
    ensures
        key@ == spec_factors_key(entity, prime),
{
    let mut key: Vec<u8> = Vec::new();
    push_decimal(&mut key, entity);
    key.push(COLON);
    push_decimal(&mut key, prime as u64);
    proof {
        assert(key@ =~= spec_factors_key(entity, prime));
    }
    key
}

/// The `postings` key of a prime and an entity: `"{prime}:{entity}"`.
pub fn postings_key(prime: u32, entity: u64) -> (key: Vec<u8>)
    ensures
        key@ == spec_postings_key(prime, entity),
{
    let mut key: Vec<u8> = Vec::new();
    push_decimal(&mut key, prime as u64);
    key.push(COLON);
    push_decimal(&mut key, entity);
    proof {
        assert(key@ =~= spec_postings_key(prime, entity));
    }
    key
}

/// Reads an exponent from a value's bytes; `None` when the bytes are not the
/// decimal text of a 32-bit integer.
pub fn parse_exponent(bytes: &[u8]) -> (value: Option<i32>)
    ensures
        value == spec_parse_exponent(bytes@),
{
    let n = bytes.len();
    if n == 0 {
        return None;
    }
    let negative = bytes[0] == MINUS;
    let start: usize = if bytes[0] == MINUS || bytes[0] == PLUS {
        1
    } else {
        0
    };
    let ghost digits = unsigned_part(bytes@);
    proof {
        assert(digits =~= bytes@.skip(start as int));
    }
    if start == n {
        return None;
    }
    let mut acc: i64 = 0;
    let mut i: usize = start;
    proof {
        assert(digits.take(0) =~= Seq::<u8>::empty());
    }
    while i < n
        invariant
            start <= i <= n,
            n == bytes@.len(),
            digits == bytes@.skip(start as int),
            digits == unsigned_part(bytes@),
            all_digits(digits.take(i - start)),
            acc == decimal_value(digits.take(i - start)),
            0 <= acc <= 0x8000_0000,
        decreases n - i,
    {
        let b = bytes[i];
        let ghost k = i - start;
        proof {
            assert(digits[k] == b);
        }
        if b < ZERO || b > NINE {
            proof {
                assert(!is_digit(digits[k]));
            }
            return None;
        }
        acc = acc * 10 + (b - ZERO) as i64;
        proof {
            let next = digits.take(k + 1);
            assert(next.drop_last() =~= digits.take(k));
            assert(next.last() == b);
            assert forall|j: int| 0 <= j < next.len() implies is_digit(#[trigger] next[j]) by {
                if j < k {
                    assert(next[j] == digits.take(k)[j]);
                }
            }
        }
        if acc > 0x8000_0000 {
            proof {
                if all_digits(digits) {
                    lemma_decimal_value_grows(digits, k + 1);
                }
            }
            return None;
        }
        i += 1;
    }
    proof {
        assert(digits.take(i - start) =~= digits);
    }
    if negative {
        Some((-acc) as i32)
    } else if acc > 0x7fff_ffff {
        None
    } else {
        Some(acc as i32)
    }
}

} // verus!
