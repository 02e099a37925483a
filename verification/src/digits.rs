//! Positional number representations.
//!
//! A byte string is read as a big-endian digit string in some base: base 256
//! for raw bytes, base 58 for Base58 digit indexes. This module defines the
//! value of such a digit string, the minimal (no leading zero digit) and the
//! fixed-width representations of a number, and proves that each
//! representation is the unique one of its kind for its value.

use vstd::arithmetic::div_mod::{
    lemma_div_decreases, lemma_fundamental_div_mod, lemma_fundamental_div_mod_converse,
};
use vstd::arithmetic::mul::lemma_mul_inequality;
use vstd::prelude::*;

verus! {

/// `base` to the power of `len`.
pub open spec fn base_pow(base: nat, len: nat) -> nat
    decreases len,
{
    if len == 0 {
        1
    } else {
        base * base_pow(base, (len - 1) as nat)
    }
}

/// A power of a positive base is positive.
pub proof fn lemma_base_pow_pos(base: nat, len: nat)
    requires
        base >= 1,
    ensures
        base_pow(base, len) >= 1,
    decreases len,
{
    if len > 0 {
        lemma_base_pow_pos(base, (len - 1) as nat);
        assert(base * base_pow(base, (len - 1) as nat) >= 1) by (nonlinear_arith)
            requires
                base >= 1,
                base_pow(base, (len - 1) as nat) >= 1,
        ;
    }
}

/// A power of a base of at least one grows with the exponent.
pub proof fn lemma_base_pow_increases(base: nat, a: nat, b: nat)
    requires
        base >= 1,
        a <= b,
    ensures
        base_pow(base, a) <= base_pow(base, b),
    decreases b,
{
    if a < b {
        lemma_base_pow_increases(base, a, (b - 1) as nat);
        lemma_base_pow_pos(base, (b - 1) as nat);
        assert(base * base_pow(base, (b - 1) as nat) >= base_pow(base, (b - 1) as nat))
            by (nonlinear_arith)
            requires
                base >= 1,
                base_pow(base, (b - 1) as nat) >= 0,
        ;
    }
}

/// Value of a big-endian digit string in the given base.
pub open spec fn place_value(digits: Seq<u8>, base: nat) -> nat
    decreases digits.len(),
{
    if digits.len() == 0 {
        0
    } else {
        place_value(digits.drop_last(), base) * base + digits.last() as nat
    }
}

/// All digits of the string are below the base.
pub open spec fn digits_below(digits: Seq<u8>, base: nat) -> bool {
    forall|i: int| 0 <= i < digits.len() ==> digits[i] < base
}

/// The string is empty or does not start with a zero digit. Such a string
/// is the canonical representation of its value.
pub open spec fn no_leading_zero(s: Seq<u8>) -> bool {
    s.len() == 0 || s.first() != 0
}

/// The shortest big-endian digit string with the given value: no digits at
/// all for zero, and no leading zero digit otherwise.
pub open spec fn min_rep(n: nat, base: nat) -> Seq<u8>
    recommends
        2 <= base <= 256,
    decreases n,
    via min_rep_decreases
{
    if n == 0 || base <= 1 {
        Seq::empty()
    } else {
        min_rep(n / base, base).push((n % base) as u8)
    }
}

#[via_fn]
proof fn min_rep_decreases(n: nat, base: nat) {
    if n != 0 && base >= 2 {
        lemma_div_decreases(n as int, base as int);
    }
}

/// The big-endian digit string of the given value written in exactly `len`
/// digits, zero-padded on the left; values at or above `base^len` lose their
/// high digits.
pub open spec fn fixed_rep(n: nat, base: nat, len: nat) -> Seq<u8>
    recommends
        2 <= base <= 256,
    decreases len,
{
    if len == 0 {
        Seq::empty()
    } else {
        fixed_rep(n / base, base, (len - 1) as nat).push((n % base) as u8)
    }
}

/// How many copies of `v` the string starts with.
pub open spec fn leading_count(s: Seq<u8>, v: u8) -> nat
    decreases s.len(),
{
    if s.len() == 0 || s.first() != v {
        0
    } else {
        1 + leading_count(s.drop_first(), v)
    }
}

/// Appending a digit multiplies the value by the base and adds the digit.
pub proof fn lemma_place_value_push(s: Seq<u8>, d: u8, base: nat)
    ensures
        place_value(s.push(d), base) == place_value(s, base) * base + d,
{
    assert(s.push(d).drop_last() =~= s);
}

/// The minimal representation evaluates back to its number.
pub proof fn lemma_min_rep_value(n: nat, base: nat)
    requires
        2 <= base <= 256,
    ensures
        place_value(min_rep(n, base), base) == n,
    decreases n,
{
    if n > 0 {
        lemma_div_decreases(n as int, base as int);
        lemma_min_rep_value(n / base, base);
        lemma_place_value_push(min_rep(n / base, base), (n % base) as u8, base);
        lemma_fundamental_div_mod(n as int, base as int);
        let s1 = min_rep(n / base, base);
        let d = (n % base) as u8;
        assert(min_rep(n, base) == s1.push(d));
        assert(place_value(s1.push(d), base) == place_value(s1, base) * base + d);
        assert(place_value(s1, base) == n / base);
        assert(d == n % base);
        assert((n / base) * base == base * (n / base)) by (nonlinear_arith);
        assert((n / base) * base + (n % base) == n);
    }
}

/// The digits of the minimal representation are below the base.
pub proof fn lemma_min_rep_digits(n: nat, base: nat)
    requires
        2 <= base <= 256,
    ensures
        digits_below(min_rep(n, base), base),
    decreases n,
{
    if n > 0 {
        lemma_div_decreases(n as int, base as int);
        lemma_min_rep_digits(n / base, base);
    }
}

/// A positive number's minimal representation is nonempty and has no leading
/// zero digit.
pub proof fn lemma_min_rep_first_nonzero(n: nat, base: nat)
    requires
        2 <= base <= 256,
        n > 0,
    ensures
        min_rep(n, base).len() > 0,
        min_rep(n, base).first() != 0,
    decreases n,
{
    lemma_div_decreases(n as int, base as int);
    lemma_fundamental_div_mod(n as int, base as int);
    let s1 = min_rep(n / base, base);
    let d = (n % base) as u8;
    assert(min_rep(n, base) == s1.push(d));
    if n / base > 0 {
        lemma_min_rep_first_nonzero(n / base, base);
        assert(s1.push(d).first() == s1.first());
    } else {
        assert(s1 =~= Seq::<u8>::empty());
        assert(s1.push(d).first() == d);
        assert(n % base == n) by {
            vstd::arithmetic::div_mod::lemma_small_div_converse(n as int, base as int);
            vstd::arithmetic::div_mod::lemma_small_mod(n, base);
        }
    }
}

/// A digit string with a nonzero leading digit has a positive value.
pub proof fn lemma_place_value_pos(s: Seq<u8>, base: nat)
    requires
        base >= 2,
        s.len() > 0,
        s.first() != 0,
    ensures
        place_value(s, base) >= 1,
    decreases s.len(),
{
    if s.len() > 1 {
        assert(s.drop_last().first() == s.first());
        lemma_place_value_pos(s.drop_last(), base);
        lemma_mul_inequality(1, place_value(s.drop_last(), base) as int, base as int);
    }
}

/// A digit string of length `len` holds a value below `base^len`.
pub proof fn lemma_place_value_bound(s: Seq<u8>, base: nat)
    requires
        base >= 2,
        digits_below(s, base),
    ensures
        place_value(s, base) < base_pow(base, s.len()),
    decreases s.len(),
{
    if s.len() > 0 {
        let prefix = s.drop_last();
        lemma_place_value_bound(prefix, base);
        let p = place_value(prefix, base);
        let bp = base_pow(base, prefix.len());
        lemma_mul_inequality(p as int, bp - 1, base as int);
        assert((bp - 1) * base == base * bp - base) by (nonlinear_arith);
        assert(base_pow(base, s.len()) == base * bp);
    }
}

/// A digit string with no leading zero digit is the minimal representation
/// of its value.
pub proof fn lemma_min_rep_unique(s: Seq<u8>, base: nat)
    requires
        2 <= base <= 256,
        digits_below(s, base),
        s.len() == 0 || s.first() != 0,
    ensures
        min_rep(place_value(s, base), base) == s,
    decreases s.len(),
{
    if s.len() > 0 {
        let n = place_value(s, base);
        lemma_place_value_pos(s, base);
        let prefix = s.drop_last();
        lemma_fundamental_div_mod_converse(
            n as int,
            base as int,
            place_value(prefix, base) as int,
            s.last() as int,
        );
        if prefix.len() > 0 {
            assert(prefix.first() == s.first());
        }
        lemma_min_rep_unique(prefix, base);
        assert(min_rep(n, base) =~= s);
    }
}

/// The fixed-width representation has exactly the requested width.
pub proof fn lemma_fixed_rep_len(n: nat, base: nat, len: nat)
    requires
        2 <= base <= 256,
    ensures
        fixed_rep(n, base, len).len() == len,
    decreases len,
{
    if len > 0 {
        lemma_fixed_rep_len(n / base, base, (len - 1) as nat);
        assert(fixed_rep(n, base, len) == fixed_rep(n / base, base, (len - 1) as nat).push(
            (n % base) as u8,
        ));
    }
}

/// The digits of the fixed-width representation are below the base.
pub proof fn lemma_fixed_rep_digits(n: nat, base: nat, len: nat)
    requires
        base >= 2,
    ensures
        digits_below(fixed_rep(n, base, len), base),
    decreases len,
{
    if len > 0 {
        lemma_fixed_rep_digits(n / base, base, (len - 1) as nat);
    }
}

/// For values below `base^len`, the fixed-width representation evaluates
/// back to its number.
pub proof fn lemma_fixed_rep_value(n: nat, base: nat, len: nat)
    requires
        2 <= base <= 256,
        n < base_pow(base, len),
    ensures
        place_value(fixed_rep(n, base, len), base) == n,
    decreases len,
{
    if len > 0 {
        let rest = (len - 1) as nat;
        lemma_fundamental_div_mod(n as int, base as int);
        assert(base_pow(base, len) == base * base_pow(base, rest));
        assert(n / base < base_pow(base, rest)) by {
            if n / base >= base_pow(base, rest) {
                lemma_mul_inequality(base_pow(base, rest) as int, (n / base) as int, base as int);
                assert(base_pow(base, rest) * base == base * base_pow(base, rest))
                    by (nonlinear_arith);
                assert((n / base) * base == base * (n / base)) by (nonlinear_arith);
                assert(base * (n / base) <= n);
                assert(false);
            }
        }
        lemma_fixed_rep_value(n / base, base, rest);
        lemma_place_value_push(fixed_rep(n / base, base, rest), (n % base) as u8, base);
        let s1 = fixed_rep(n / base, base, rest);
        let d = (n % base) as u8;
        assert(fixed_rep(n, base, len) == s1.push(d));
        assert(place_value(s1, base) == n / base);
        assert(d == n % base);
        assert((n / base) * base == base * (n / base)) by (nonlinear_arith);
        assert((n / base) * base + (n % base) == n);
    }
}

/// A digit string is the fixed-width representation of its value at its own
/// length.
pub proof fn lemma_fixed_rep_unique(s: Seq<u8>, base: nat)
    requires
        2 <= base <= 256,
        digits_below(s, base),
    ensures
        fixed_rep(place_value(s, base), base, s.len()) == s,
    decreases s.len(),
{
    if s.len() > 0 {
        let n = place_value(s, base);
        let prefix = s.drop_last();
        lemma_fundamental_div_mod_converse(
            n as int,
            base as int,
            place_value(prefix, base) as int,
            s.last() as int,
        );
        lemma_fixed_rep_unique(prefix, base);
        assert(fixed_rep(n, base, s.len()) =~= s);
    }
}

/// A zero digit in front does not change the value.
pub proof fn lemma_place_value_drop_leading_zero(s: Seq<u8>, base: nat)
    requires
        s.len() > 0,
        s.first() == 0,
    ensures
        place_value(s, base) == place_value(s.drop_first(), base),
    decreases s.len(),
{
    let u = s.drop_first();
    if s.len() > 1 {
        let t = s.drop_last();
        assert(t.first() == s.first());
        lemma_place_value_drop_leading_zero(t, base);
        assert(t.drop_first() =~= u.drop_last());
        assert(u.last() == s.last());
        assert(place_value(s, base) == place_value(t, base) * base + s.last());
        assert(place_value(u, base) == place_value(u.drop_last(), base) * base + u.last());
        assert(place_value(t, base) == place_value(u.drop_last(), base));
        assert(place_value(s, base) == place_value(u, base));
    } else {
        assert(u =~= Seq::<u8>::empty());
        assert(s.drop_last() =~= Seq::<u8>::empty());
        assert(place_value(s.drop_last(), base) == 0);
        assert(place_value(s, base) == place_value(s.drop_last(), base) * base + s.last());
        assert(s.last() == s.first());
        assert(place_value(u, base) == 0);
    }
}

/// Leading zero digits do not change the value.
pub proof fn lemma_place_value_skip_zeros(s: Seq<u8>, base: nat, k: int)
    requires
        0 <= k <= s.len(),
        forall|j: int| 0 <= j < k ==> s[j] == 0,
    ensures
        place_value(s, base) == place_value(s.skip(k), base),
    decreases k,
{
    if k > 0 {
        lemma_place_value_drop_leading_zero(s, base);
        assert(s.drop_first() =~= s.skip(1));
        assert forall|j: int| 0 <= j < k - 1 implies s.skip(1)[j] == 0 by {
            assert(s[j + 1] == 0);
        }
        lemma_place_value_skip_zeros(s.skip(1), base, k - 1);
        assert(s.skip(1).skip(k - 1) =~= s.skip(k));
    } else {
        assert(s.skip(0) =~= s);
    }
}

/// Putting a digit in front adds its weight at the highest place.
pub proof fn lemma_place_value_prepend(x: u8, s: Seq<u8>, base: nat)
    ensures
        place_value(seq![x] + s, base) == x * base_pow(base, s.len()) + place_value(s, base),
    decreases s.len(),
{
    if s.len() == 0 {
        assert(seq![x] + s =~= seq![x]);
        assert(seq![x].drop_last() =~= Seq::<u8>::empty());
        assert(place_value(seq![x], base) == place_value(seq![x].drop_last(), base) * base + x);
        assert(place_value(seq![x].drop_last(), base) == 0);
        assert(place_value(seq![x].drop_last(), base) * base == 0) by (nonlinear_arith)
            requires
                place_value(seq![x].drop_last(), base) == 0,
        ;
        assert(place_value(s, base) == 0);
        assert(base_pow(base, s.len()) == 1);
        assert(place_value(seq![x] + s, base) == place_value(seq![x], base));
        assert(place_value(seq![x] + s, base) == x);
    } else {
        let t = seq![x] + s;
        let p = s.drop_last();
        assert(t.drop_last() =~= seq![x] + p);
        lemma_place_value_prepend(x, p, base);
        assert(t.last() == s.last());
        assert(place_value(t, base) == place_value(seq![x] + p, base) * base + s.last());
        assert((x * base_pow(base, p.len()) + place_value(p, base)) * base == x * (base
            * base_pow(base, p.len())) + place_value(p, base) * base) by (nonlinear_arith);
        assert(base_pow(base, s.len()) == base * base_pow(base, p.len()));
        assert(place_value(s, base) == place_value(p, base) * base + s.last());
        assert(place_value(t, base) == x * base_pow(base, s.len()) + place_value(s, base));
    }
}

/// The count of leading copies never exceeds the length.
pub proof fn lemma_leading_count_le_len(s: Seq<u8>, v: u8)
    ensures
        leading_count(s, v) <= s.len(),
        leading_count(s, v) < s.len() ==> s[leading_count(s, v) as int] != v,
        forall|i: int| 0 <= i < leading_count(s, v) ==> s[i] == v,
    decreases s.len(),
{
    if s.len() > 0 && s.first() == v {
        lemma_leading_count_le_len(s.drop_first(), v);
        assert forall|i: int| 0 <= i < leading_count(s, v) implies s[i] == v by {
            if i > 0 {
                assert(s.drop_first()[i - 1] == s[i]);
            }
        }
    }
}

/// The count of leading copies is determined by the positions that hold `v`:
/// if the first `k` positions hold `v` and position `k` (if any) does not,
/// then the count is exactly `k`.
pub proof fn lemma_leading_count_exact(s: Seq<u8>, v: u8, k: nat)
    requires
        k <= s.len(),
        forall|i: int| 0 <= i < k ==> s[i] == v,
        k < s.len() ==> s[k as int] != v,
    ensures
        leading_count(s, v) == k,
    decreases s.len(),
{
    if s.len() > 0 && k > 0 {
        assert(s.first() == v);
        assert(forall|i: int| 0 <= i < k - 1 ==> s.drop_first()[i] == s[i + 1]);
        lemma_leading_count_exact(s.drop_first(), v, (k - 1) as nat);
    }
}

/// A prefix of a digit string never has a larger value than the whole.
pub proof fn lemma_place_value_take_le(s: Seq<u8>, base: nat, i: int)
    requires
        base >= 1,
        0 <= i <= s.len(),
    ensures
        place_value(s.take(i), base) <= place_value(s, base),
    decreases s.len() - i,
{
    if i == s.len() {
        assert(s.take(i) =~= s);
    } else {
        assert(s.take(i + 1).drop_last() =~= s.take(i));
        let t = place_value(s.take(i), base);
        assert(t * base >= t * 1) by (nonlinear_arith)
            requires base >= 1, t >= 0;
        lemma_place_value_take_le(s, base, i + 1);
    }
}

/// The total size of the suffix space: 58 to the power of the suffix length.
pub open spec fn pow58(len: nat) -> nat {
    base_pow(58, len)
}

/// A power of 58 is positive.
pub proof fn lemma_pow58_pos(len: nat)
    ensures
        pow58(len) >= 1,
{
    lemma_base_pow_pos(58, len);
}

/// `pow58` grows with the exponent.
pub proof fn lemma_pow58_increases(a: nat, b: nat)
    requires
        a <= b,
    ensures
        pow58(a) <= pow58(b),
{
    lemma_base_pow_increases(58, a, b);
}

} // verus!
