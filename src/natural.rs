//! Canonical non-negative integers: exact powers of 256 are kept as their
//! exponent, every other value as its 64-bit limbs.

use num_bigint::BigUint;
use num_traits::Num;
use vstd::arithmetic::power::*;
use vstd::arithmetic::power2::{lemma2_to64, lemma_pow2};
use vstd::prelude::*;

verus! {

/// 2^64, the base of one limb.
pub open spec fn limb_base() -> nat {
    0x1_0000_0000_0000_0000nat
}

/// Value of little-endian 64-bit limbs.
pub open spec fn limbs_value(l: Seq<u64>) -> nat
    decreases l.len(),
{
    if l.len() == 0 {
        0
    } else {
        l[0] as nat + limb_base() * limbs_value(l.drop_first())
    }
}

/// No most-significant zero limb.
pub open spec fn normalized(l: Seq<u64>) -> bool {
    l.len() == 0 || l.last() != 0
}

/// Value of a digit character in radices up to 36.
pub open spec fn digit_value(c: char) -> nat {
    if '0' <= c && c <= '9' {
        (c as nat - '0' as nat) as nat
    } else if 'a' <= c && c <= 'z' {
        (c as nat - 'a' as nat + 10) as nat
    } else if 'A' <= c && c <= 'Z' {
        (c as nat - 'A' as nat + 10) as nat
    } else {
        36
    }
}

/// `c` is a digit of `radix`.
pub open spec fn is_digit_of(c: char, radix: nat) -> bool {
    digit_value(c) < radix
}

/// Value of a big-endian digit string.
pub open spec fn digits_value(s: Seq<char>, radix: nat) -> nat
    decreases s.len(),
{
    if s.len() == 0 {
        0
    } else {
        digits_value(s.drop_last(), radix) * radix + digit_value(s.last())
    }
}

/// Whether `c` is a digit of `radix`.
pub fn is_digit(c: char, radix: u32) -> (r: bool)
    ensures
        r == is_digit_of(c, radix as nat),
{
    let d: u32 = if '0' <= c && c <= '9' {
        (c as u32) - ('0' as u32)
    } else if 'a' <= c && c <= 'z' {
        (c as u32) - ('a' as u32) + 10
    } else if 'A' <= c && c <= 'Z' {
        (c as u32) - ('A' as u32) + 10
    } else {
        36
    };
    d < radix
}

/// Relies on num_bigint's `BigUint::from_str_radix` to read a digit string,
/// handed out as its `to_u64_digits` limbs (least significant first, with
/// no most-significant zero limb).
#[verifier::external_body]
fn parse_limbs(digits: &str, radix: u32) -> (r: Vec<u64>)
    requires
        2 <= radix <= 36,
        digits@.len() > 0,
        forall|i: int| 0 <= i < digits@.len() ==> is_digit_of(#[trigger] digits@[i], radix as nat),
    ensures
        limbs_value(r@) == digits_value(digits@, radix as nat),
        normalized(r@),
{
    match BigUint::from_str_radix(digits, radix) {
        Ok(n) => n.to_u64_digits(),
        Err(_) => Vec::new(),
    }
}


/// The limbs below index `upto` are all zero.
pub open spec fn low_limbs_zero(l: Seq<u64>, upto: int) -> bool {
    forall|j: int| 0 <= j < upto ==> #[trigger] l[j] == 0
}

proof fn lemma_limb_base()
    ensures
        limb_base() == pow(256, 8),
{
    reveal_with_fuel(pow, 9);
}

proof fn lemma_byte_power_values()
    ensures
        pow(256, 0) == 0x1,
        pow(256, 1) == 0x100,
        pow(256, 2) == 0x10000,
        pow(256, 3) == 0x1000000,
        pow(256, 4) == 0x100000000,
        pow(256, 5) == 0x10000000000,
        pow(256, 6) == 0x1000000000000,
        pow(256, 7) == 0x100000000000000,
{
    reveal_with_fuel(pow, 8);
}

/// Limbs that are zero but for the top one are worth the top one times a
/// power of the limb base.
proof fn lemma_top_limb_value(l: Seq<u64>)
    requires
        l.len() > 0,
        low_limbs_zero(l, l.len() - 1),
    ensures
        limbs_value(l) == l.last() as nat * pow(limb_base() as int, (l.len() - 1) as nat),
    decreases l.len(),
{
    reveal_with_fuel(limbs_value, 2);
    if l.len() == 1 {
        assert(l.drop_first().len() == 0);
        assert(pow(limb_base() as int, 0) == 1) by {
            lemma_pow0(limb_base() as int);
        }
    } else {
        let t = l.drop_first();
        assert forall|j: int| 0 <= j < t.len() - 1 implies #[trigger] t[j] == 0 by {
            assert(t[j] == l[j + 1]);
        }
        lemma_top_limb_value(t);
        assert(t.last() == l.last());
        assert(l[0] == 0);
        let p = pow(limb_base() as int, (t.len() - 1) as nat);
        assert(pow(limb_base() as int, (l.len() - 1) as nat) == limb_base() * p) by {
            lemma_pow_adds(limb_base() as int, 1, (t.len() - 1) as nat);
            lemma_pow1(limb_base() as int);
        }
        assert(limb_base() * (l.last() as nat * p) == l.last() as nat * (limb_base() * p))
            by (nonlinear_arith);
    }
}

/// Removing most-significant zero limbs keeps the value.
proof fn lemma_drop_zero_top(l: Seq<u64>)
    requires
        l.len() > 0,
        l.last() == 0,
    ensures
        limbs_value(l) == limbs_value(l.drop_last()),
    decreases l.len(),
{
    reveal_with_fuel(limbs_value, 2);
    if l.len() == 1 {
        assert(l.drop_first().len() == 0);
        assert(l.drop_last().len() == 0);
    } else {
        lemma_drop_zero_top(l.drop_first());
        assert(l.drop_first().drop_last() == l.drop_last().drop_first());
        assert(l.drop_last()[0] == l[0]);
    }
}

/// A digit string of a radix up to 64 is worth less than 64 to the power
/// of its length.
proof fn lemma_digits_bound(s: Seq<char>, radix: nat)
    requires
        2 <= radix <= 64,
        forall|i: int| 0 <= i < s.len() ==> is_digit_of(#[trigger] s[i], radix),
    ensures
        digits_value(s, radix) < pow(64, s.len()),
    decreases s.len(),
{
    if s.len() == 0 {
        lemma_pow0(64);
    } else {
        let t = s.drop_last();
        assert forall|i: int| 0 <= i < t.len() implies is_digit_of(#[trigger] t[i], radix) by {
            assert(t[i] == s[i]);
        }
        lemma_digits_bound(t, radix);
        assert(is_digit_of(s[s.len() - 1], radix));
        let p = pow(64, t.len());
        lemma_pow_adds(64, 1, t.len());
        lemma_pow1(64);
        let v = digits_value(t, radix);
        let d = digit_value(s.last());
        assert(v * radix + d < 64 * p) by (nonlinear_arith)
            requires
                v < p,
                d < radix,
                radix <= 64,
        ;
    }
}

/// Normalized limbs are worth at least the limb base to the power of their
/// length less one.
proof fn lemma_limbs_lower_bound(l: Seq<u64>)
    requires
        l.len() > 0,
        normalized(l),
    ensures
        limbs_value(l) >= pow(limb_base() as int, (l.len() - 1) as nat),
    decreases l.len(),
{
    reveal_with_fuel(limbs_value, 2);
    if l.len() == 1 {
        lemma_pow0(limb_base() as int);
    } else {
        let t = l.drop_first();
        assert(t.last() == l.last());
        lemma_limbs_lower_bound(t);
        let p = pow(limb_base() as int, (t.len() - 1) as nat);
        lemma_pow_adds(limb_base() as int, 1, (t.len() - 1) as nat);
        lemma_pow1(limb_base() as int);
        let v = limbs_value(t);
        assert(limb_base() * v >= limb_base() * p) by (nonlinear_arith)
            requires
                v >= p,
        ;
    }
}

/// The limbs of a digit string's value are fewer than a tenth of its digits,
/// plus one.
proof fn lemma_limbs_of_digits(l: Seq<u64>, s: Seq<char>, radix: nat)
    requires
        2 <= radix <= 36,
        normalized(l),
        limbs_value(l) == digits_value(s, radix),
        forall|i: int| 0 <= i < s.len() ==> is_digit_of(#[trigger] s[i], radix),
    ensures
        l.len() == 0 || 64 * (l.len() - 1) < 6 * s.len(),
{
    if l.len() > 0 {
        lemma_digits_bound(s, radix);
        lemma_limbs_lower_bound(l);
        lemma_pow_multiplies(2, 6, s.len());
        lemma_pow_multiplies(2, 64, (l.len() - 1) as nat);
        assert(pow(2, 6) == 64) by {
            reveal_with_fuel(pow, 7);
        }
        assert(pow(2, 64) == limb_base()) by {
            lemma2_to64();
            lemma_pow2(64);
        }
        lemma_pow_strictly_increases_converse(2, (64 * (l.len() - 1)) as nat, (6 * s.len()) as nat);
    }
}

/// Normalized limbs worth zero are empty.
proof fn lemma_zero_limbs(l: Seq<u64>)
    requires
        normalized(l),
        limbs_value(l) == 0,
    ensures
        l.len() == 0,
{
    if l.len() > 0 {
        lemma_limbs_lower_bound(l);
        lemma_pow_positive(limb_base() as int, (l.len() - 1) as nat);
    }
}

/// Splits a value into its lowest limb and the rest.
proof fn lemma_limb_split(l: Seq<u64>)
    requires
        l.len() > 0,
    ensures
        limbs_value(l) % limb_base() == l[0] as nat,
        limbs_value(l) / limb_base() == limbs_value(l.drop_first()),
{
    let v = limbs_value(l) as int;
    let r = limbs_value(l.drop_first()) as int;
    assert(v == r * limb_base() + l[0] as int) by (nonlinear_arith)
        requires
            v == l[0] as int + limb_base() * r,
    ;
    vstd::arithmetic::div_mod::lemma_fundamental_div_mod_converse(v, limb_base() as int, r, l[0] as int);
}

/// Normalized limbs of equal value are the same limbs.
pub proof fn lemma_limbs_unique(a: Seq<u64>, b: Seq<u64>)
    requires
        normalized(a),
        normalized(b),
        limbs_value(a) == limbs_value(b),
    ensures
        a == b,
    decreases a.len(),
{
    if a.len() == 0 {
        lemma_zero_limbs(b);
    } else if b.len() == 0 {
        lemma_zero_limbs(a);
    } else {
        lemma_limb_split(a);
        lemma_limb_split(b);
        let ta = a.drop_first();
        let tb = b.drop_first();
        assert(normalized(ta)) by {
            if ta.len() > 0 {
                assert(ta.last() == a.last());
            }
        }
        assert(normalized(tb)) by {
            if tb.len() > 0 {
                assert(tb.last() == b.last());
            }
        }
        lemma_limbs_unique(ta, tb);
        assert(a == seq![a[0]] + ta);
        assert(b == seq![b[0]] + tb);
    }
}

/// The normalized limbs of 256^n: `n / 8` zero limbs under a top limb of
/// 256^(n % 8).
proof fn lemma_power_limbs(l: Seq<u64>, n: nat)
    requires
        normalized(l),
        limbs_value(l) == pow(256, n),
    ensures
        l.len() == n / 8 + 1,
        l.last() as int == pow(256, n % 8),
        low_limbs_zero(l, l.len() - 1),
    decreases n,
{
    lemma_pow_positive(256, n);
    lemma_limb_base();
    if l.len() == 0 {
        reveal_with_fuel(limbs_value, 1);
    }
    lemma_limb_split(l);
    let t = l.drop_first();
    assert(normalized(t)) by {
        if t.len() > 0 {
            assert(t.last() == l.last());
        }
    }
    if n < 8 {
        lemma_pow_strictly_increases(256, n, 8);
        assert(pow(256, n) / (limb_base() as int) == 0) by {
            vstd::arithmetic::div_mod::lemma_basic_div(pow(256, n), limb_base() as int);
        }
        lemma_zero_limbs(t);
        vstd::arithmetic::div_mod::lemma_small_mod(pow(256, n) as nat, limb_base());
    } else {
        let w = pow(256, (n - 8) as nat);
        lemma_pow_adds(256, 8, (n - 8) as nat);
        lemma_pow_positive(256, (n - 8) as nat);
        assert(pow(256, n) == w * limb_base());
        vstd::arithmetic::div_mod::lemma_mod_multiples_basic(w, limb_base() as int);
        vstd::arithmetic::div_mod::lemma_div_multiples_vanish(w, limb_base() as int);
        assert(limbs_value(t) == w) by {
            assert(w * limb_base() / (limb_base() as int) == w) by {
                vstd::arithmetic::div_mod::lemma_div_by_multiple(w, limb_base() as int);
            }
        }
        lemma_power_limbs(t, (n - 8) as nat);
        assert((n - 8) as nat / 8 + 1 == n / 8);
        assert((n - 8) as nat % 8 == n % 8);
        assert(t.last() == l.last());
        assert forall|j: int| 0 <= j < l.len() - 1 implies #[trigger] l[j] == 0 by {
            if j > 0 {
                assert(l[j] == t[j - 1]);
            }
        }
    }
}

/// 256^n for some `n`.
pub open spec fn is_byte_power(v: nat) -> bool {
    exists|n: nat| v == pow(256, n)
}

/// A natural in canonical form: an `Unaligned` value is no power of 256
/// and has no most-significant zero limb.
pub open spec fn is_canonical(x: Natural) -> bool {
    match x {
        Natural::Unaligned(b) => !is_byte_power(b.value()) && normalized(b.limbs_view()),
        Natural::ByteAligned(_) => true,
    }
}

/// Canonical naturals of equal value have the same form: both
/// `ByteAligned` with the same exponent, or both `Unaligned` with the same
/// limbs. So every spelling of a number (binary, octal, hexadecimal or
/// decimal) gives one and the same `Natural`.
pub proof fn lemma_canonical_form(x: Natural, y: Natural)
    requires
        is_canonical(x),
        is_canonical(y),
        x.value() == y.value(),
    ensures
        match (x, y) {
            (Natural::ByteAligned(m), Natural::ByteAligned(n)) => m == n,
            (Natural::Unaligned(a), Natural::Unaligned(b)) => a.limbs_view() == b.limbs_view(),
            _ => false,
        },
{
    match (x, y) {
        (Natural::ByteAligned(m), Natural::ByteAligned(n)) => {
            lemma_pow_positive(256, m as nat);
            lemma_pow_positive(256, n as nat);
            if m < n {
                lemma_pow_strictly_increases(256, m as nat, n as nat);
            } else if n < m {
                lemma_pow_strictly_increases(256, n as nat, m as nat);
            }
        },
        (Natural::Unaligned(a), Natural::Unaligned(b)) => {
            lemma_limbs_unique(a.limbs_view(), b.limbs_view());
        },
        (Natural::Unaligned(a), Natural::ByteAligned(n)) => {
            lemma_pow_positive(256, n as nat);
            assert(a.value() == pow(256, n as nat));
            assert(is_byte_power(a.value()));
        },
        (Natural::ByteAligned(m), Natural::Unaligned(b)) => {
            lemma_pow_positive(256, m as nat);
            assert(b.value() == pow(256, m as nat));
            assert(is_byte_power(b.value()));
        },
    }
}

/// A non-negative integer of arbitrary size, as its 64-bit limbs.
#[derive(Debug, PartialEq, Eq)]
pub struct BigNat {
    limbs: Vec<u64>,
}

impl BigNat {
    #[verifier::type_invariant]
    spec fn wf(self) -> bool {
        &&& normalized(self.limbs@)
        &&& self.limbs@.len() <= usize::MAX / 8
    }

    /// The limbs, least significant first.
    pub closed spec fn limbs_view(self) -> Seq<u64> {
        self.limbs@
    }

    /// The number this value stands for.
    pub open spec fn value(self) -> nat {
        limbs_value(self.limbs_view())
    }

    /// The number held by `limbs` (least significant first); zero limbs at
    /// the top are dropped.
    pub fn from_limbs(limbs: Vec<u64>) -> (r: BigNat)
        requires
            limbs@.len() <= usize::MAX / 8,
        ensures
            r.value() == limbs_value(limbs@),
            normalized(r.limbs_view()),
    {
        let ghost given = limbs@;
        let mut limbs = limbs;
        while limbs.len() > 0 && limbs[limbs.len() - 1] == 0
            invariant
                limbs@.len() <= usize::MAX / 8,
                limbs_value(limbs@) == limbs_value(given),
            decreases limbs.len(),
        {
            proof {
                lemma_drop_zero_top(limbs@);
            }
            limbs.pop();
        }
        BigNat { limbs }
    }

    /// Reads `s` as digits of `radix` (`0`-`9`, then `a`-`z` or `A`-`Z`);
    /// `None` unless the radix is 2 to 36 and `s` is a non-empty run of its
    /// digits.
    pub fn from_str_radix(s: &str, radix: u32) -> (r: Option<BigNat>)
        ensures
            r is Some <==> (2 <= radix <= 36 && s@.len() > 0 && forall|i: int|
                0 <= i < s@.len() ==> is_digit_of(#[trigger] s@[i], radix as nat)),
            r matches Some(b) ==> b.value() == digits_value(s@, radix as nat),
    {
        if radix < 2 || radix > 36 {
            return None;
        }
        let n = s.unicode_len();
        if n == 0 {
            return None;
        }
        let mut i: usize = 0;
        while i < n
            invariant
                n == s@.len(),
                i <= n,
                2 <= radix <= 36,
                forall|j: int| 0 <= j < i ==> is_digit_of(#[trigger] s@[j], radix as nat),
            decreases n - i,
        {
            if !is_digit(s.get_char(i), radix) {
                return None;
            }
            i += 1;
        }
        Some(BigNat::from_digits(s, radix))
    }

    /// Value of a non-empty digit string of `radix`.
    pub(crate) fn from_digits(s: &str, radix: u32) -> (r: BigNat)
        requires
            2 <= radix <= 36,
            0 < s@.len() <= usize::MAX,
            forall|i: int| 0 <= i < s@.len() ==> is_digit_of(#[trigger] s@[i], radix as nat),
        ensures
            r.value() == digits_value(s@, radix as nat),
    {
        let limbs = parse_limbs(s, radix);
        proof {
            lemma_limbs_of_digits(limbs@, s@, radix as nat);
        }
        BigNat { limbs }
    }

    /// The limbs, least significant first, with no zero limb at the top.
    pub fn limbs(&self) -> (r: &Vec<u64>)
        ensures
            r@ == self.limbs_view(),
    {
        &self.limbs
    }
}

/// A natural literal: `ByteAligned(n)` is exactly 256^n, `Unaligned` any
/// other value.
#[derive(Debug, PartialEq, Eq)]
pub enum Natural {
    Unaligned(BigNat),
    ByteAligned(usize),
}

impl Natural {
    /// The number this literal stands for.
    pub open spec fn value(self) -> nat {
        match self {
            Natural::Unaligned(b) => b.value(),
            Natural::ByteAligned(n) => pow(256, n as nat) as nat,
        }
    }

    /// Canonical form of a value that fits 64 bits.
    pub fn from_u64(value: u64) -> (r: Natural)
        ensures
            r.value() == value as nat,
            is_canonical(r),
    {
        let mut limbs: Vec<u64> = Vec::new();
        limbs.push(value);
        proof {
            reveal_with_fuel(limbs_value, 2);
            assert(limbs@.drop_first().len() == 0);
        }
        Natural::from(BigNat::from_limbs(limbs))
    }

    /// Canonical form of `value`: it is `ByteAligned(n)` when its top limb is
    /// one of the eight powers of 256 that fit a limb and every lower limb is
    /// zero, so that it equals 256^n.
    pub fn from(value: BigNat) -> (r: Natural)
        ensures
            r.value() == value.value(),
            is_canonical(r),
            r matches Natural::Unaligned(b) ==> b == value,
            r is ByteAligned <==> is_byte_power(value.value()),
    {
        proof {
            use_type_invariant(&value);
            lemma_byte_power_values();
        }
        let len = value.limbs.len();
        if len == 0 {
            proof {
                if is_byte_power(value.value()) {
                    let n = choose|n: nat| value.value() == pow(256, n);
                    lemma_pow_positive(256, n);
                }
            }
            return Natural::Unaligned(value);
        }
        let top = value.limbs[len - 1];
        let bytes: usize = if top == 0x1 {
            0
        } else if top == 0x100 {
            1
        } else if top == 0x10000 {
            2
        } else if top == 0x1000000 {
            3
        } else if top == 0x100000000 {
            4
        } else if top == 0x10000000000 {
            5
        } else if top == 0x1000000000000 {
            6
        } else if top == 0x100000000000000 {
            7
        } else {
            proof {
                if is_byte_power(value.value()) {
                    let n = choose|n: nat| value.value() == pow(256, n);
                    lemma_power_limbs(value.limbs@, n);
                    let k = n % 8;
                    assert(k == 0 || k == 1 || k == 2 || k == 3 || k == 4 || k == 5 || k == 6 || k
                        == 7);
                }
            }
            return Natural::Unaligned(value);
        };
        assert(top as int == pow(256, bytes as nat));
        let mut i: usize = 0;
        while i < len - 1
            invariant
                len == value.limbs@.len(),
                normalized(value.limbs@),
                0 < len <= usize::MAX / 8,
                i <= len - 1,
                low_limbs_zero(value.limbs@, i as int),
            decreases len - 1 - i,
        {
            if value.limbs[i] != 0 {
                proof {
                    if is_byte_power(value.value()) {
                        let n = choose|n: nat| value.value() == pow(256, n);
                        lemma_power_limbs(value.limbs@, n);
                    }
                }
                return Natural::Unaligned(value);
            }
            i += 1;
        }
        let n: usize = bytes + 8 * (len - 1);
        proof {
            lemma_top_limb_value(value.limbs@);
            lemma_limb_base();
            lemma_pow_multiplies(256, 8, (len - 1) as nat);
            lemma_pow_adds(256, bytes as nat, (8 * (len - 1)) as nat);
            lemma_pow_positive(256, n as nat);
        }
        Natural::ByteAligned(n)
    }
}

} // verus!
