//! Price levels and the decoding of their wire text into fixed-point decimals.
use vstd::prelude::*;

verus! {

/// Number of fractional digits a [`Decimal`] keeps.
pub const DECIMAL_PLACES: u64 = 18;

/// One whole unit, in the smallest steps of a [`Decimal`].
pub const UNIT: u128 = 1_000_000_000_000_000_000;

/// A non-negative decimal number with `DECIMAL_PLACES` fractional digits,
/// held as a count of its smallest step (`units / 10^18` is its value).
#[derive(Clone, Copy, Debug, PartialEq, Eq, Structural)]
pub struct Decimal {
    pub units: u128,
}

/// A price and the quantity resting at it.
#[derive(Clone, Copy, Debug, PartialEq, Eq, Structural)]
pub struct PriceLevel {
    pub price: Decimal,
    pub size: Decimal,
}

/// Why a wire value could not be decoded.
#[derive(Clone, Copy, Debug, PartialEq, Eq, Structural)]
pub enum DecodeError {
    /// A price, size or revision is not a plain non-negative decimal that fits.
    NumericFormat,
    /// The payload is not JSON of the expected shape.
    Malformed,
}

pub open spec fn is_digit(c: char) -> bool {
    '0' <= c && c <= '9'
}

pub open spec fn digit_value(c: char) -> nat {
    (c as u32 - '0' as u32) as nat
}

pub open spec fn all_digits(s: Seq<char>) -> bool {
    forall|i: int| 0 <= i < s.len() ==> is_digit(#[trigger] s[i])
}

/// The number that a run of decimal digits spells.
pub open spec fn digits_value(s: Seq<char>) -> nat
    decreases s.len(),
{
    if s.len() == 0 {
        0
    } else {
        digits_value(s.drop_last()) * 10 + digit_value(s.last())
    }
}

pub open spec fn pow10(n: nat) -> nat
    decreases n,
{
    if n == 0 {
        1
    } else {
        10 * pow10((n - 1) as nat)
    }
}

/// `s` is a run of digits with one '.' at index `k`.
pub open spec fn is_point_at(s: Seq<char>, k: int) -> bool {
    0 <= k < s.len() && s[k] == '.' && all_digits(s.take(k)) && all_digits(s.skip(k + 1))
}

/// The digits of a mantissa and how many of them follow its point: digits
/// with at most one '.', and at least one digit.
pub open spec fn mantissa_of(m: Seq<char>) -> Option<(Seq<char>, nat)> {
    if m.len() > 0 && all_digits(m) {
        Some((m, 0))
    } else if m.len() > 1 && exists|k: int| is_point_at(m, k) {
        let k = choose|k: int| is_point_at(m, k);
        Some((m.take(k) + m.skip(k + 1), (m.len() - k - 1) as nat))
    } else {
        None
    }
}

/// An exponent: an optional sign, then at least one digit. Gives whether it
/// is negative, and its magnitude.
pub open spec fn exponent_of(x: Seq<char>) -> Option<(bool, nat)> {
    if x.len() > 0 && all_digits(x) {
        Some((false, digits_value(x)))
    } else if x.len() > 1 && (x[0] == '+' || x[0] == '-') && all_digits(x.skip(1)) {
        Some((x[0] == '-', digits_value(x.skip(1))))
    } else {
        None
    }
}

pub open spec fn is_exponent_mark(c: char) -> bool {
    c == 'e' || c == 'E'
}

pub open spec fn is_mark_at(s: Seq<char>, k: int) -> bool {
    0 <= k < s.len() && is_exponent_mark(s[k])
}

/// The decimal `v * 10^shift` steps, if that is a whole number of steps that
/// fits in `u128`.
pub open spec fn units_of(v: nat, shift: int) -> Option<Decimal> {
    let whole = shift >= 0 || v % pow10((-shift) as nat) == 0;
    let u = if shift >= 0 {
        v * pow10(shift as nat)
    } else {
        v / pow10((-shift) as nat)
    };
    if whole && u <= u128::MAX {
        Some(Decimal { units: u as u128 })
    } else {
        None
    }
}

/// The value of a wire number: a mantissa (digits with at most one '.'),
/// optionally followed by `e` or `E` and a signed exponent, with no sign in
/// front. A valid number is refused only where [`Decimal`] cannot hold it:
/// when it is not a whole multiple of `10^-18` (more than `DECIMAL_PLACES`
/// significant fractional digits), or when it is `2^128 / 10^18` (about
/// 3.4e20) or more.
pub open spec fn decimal_of(s: Seq<char>) -> Option<Decimal> {
    if exists|k: int| is_mark_at(s, k) {
        let k = choose|k: int| is_mark_at(s, k);
        match (mantissa_of(s.take(k)), exponent_of(s.skip(k + 1))) {
            (Some((d, f)), Some((neg, e))) => units_of(
                digits_value(d),
                18 - f + if neg {
                    -e
                } else {
                    e as int
                },
            ),
            _ => None,
        }
    } else {
        match mantissa_of(s) {
            Some((d, f)) => units_of(digits_value(d), 18 - f),
            None => None,
        }
    }
}

/// Trailing zeros of a run of digits.
pub open spec fn trailing_zeros(d: Seq<char>) -> nat
    decreases d.len(),
{
    if d.len() == 0 {
        0
    } else if d.last() == '0' {
        trailing_zeros(d.drop_last()) + 1
    } else {
        0
    }
}

/// The number a run of digits spells once its trailing zeros are dropped.
pub open spec fn significand(d: Seq<char>) -> nat
    decreases d.len(),
{
    if d.len() == 0 {
        0
    } else if d.last() == '0' {
        significand(d.drop_last())
    } else {
        digits_value(d)
    }
}

/// The value of a revision marker: a non-empty run of digits that fits in `u64`.
pub open spec fn revision_of(s: Seq<char>) -> Option<u64> {
    if s.len() > 0 && all_digits(s) && digits_value(s) <= u64::MAX {
        Some(digits_value(s) as u64)
    } else {
        None
    }
}

pub open spec fn level_of(price: Seq<char>, size: Seq<char>) -> Option<PriceLevel> {
    match (decimal_of(price), decimal_of(size)) {
        (Some(p), Some(q)) => Some(PriceLevel { price: p, size: q }),
        _ => None,
    }
}

pub open spec fn pair_texts(raw: Seq<(String, String)>) -> Seq<(Seq<char>, Seq<char>)> {
    raw.map_values(|w: (String, String)| (w.0@, w.1@))
}

/// The levels that a sequence of wire pairs spells, in the same order, if
/// every field of every pair is a valid number.
pub open spec fn levels_of(raw: Seq<(Seq<char>, Seq<char>)>) -> Option<Seq<PriceLevel>> {
    if forall|i: int| 0 <= i < raw.len() ==> (#[trigger] level_of(raw[i].0, raw[i].1)) is Some {
        Some(Seq::new(raw.len(), |i: int| level_of(raw[i].0, raw[i].1)->Some_0))
    } else {
        None
    }
}

proof fn lemma_pow10_positive(n: nat)
    ensures
        pow10(n) >= 1,
    decreases n,
{
    if n > 0 {
        lemma_pow10_positive((n - 1) as nat);
    }
}

/// Appending digits never makes the number smaller.
proof fn lemma_digits_value_grows(a: Seq<char>, b: Seq<char>)
    ensures
        digits_value(a) <= digits_value(a + b),
    decreases b.len(),
{
    if b.len() > 0 {
        lemma_digits_value_grows(a, b.drop_last());
        assert((a + b).drop_last() =~= a + b.drop_last());
    }
}

proof fn lemma_digits_value_push(a: Seq<char>, c: char)
    ensures
        digits_value(a.push(c)) == digits_value(a) * 10 + digit_value(c),
{
    assert(a.push(c).drop_last() =~= a);
}

/// The digit that `c` is, if it is one.
fn digit_of(c: char) -> (r: Option<u8>)
    ensures
        r is Some <==> is_digit(c),
        r is Some ==> r->Some_0 as nat == digit_value(c),
{
    if '0' <= c && c <= '9' {
        Some((c as u32 - '0' as u32) as u8)
    } else {
        None
    }
}

proof fn lemma_pow10_monotone(a: nat, b: nat)
    requires
        a <= b,
    ensures
        pow10(a) <= pow10(b),
    decreases b,
{
    if a < b {
        lemma_pow10_monotone(a, (b - 1) as nat);
        lemma_pow10_positive((b - 1) as nat);
    }
}

proof fn lemma_scale_up(v: nat, p: nat)
    requires
        p >= 1,
    ensures
        v * p >= v,
{
    assert(v * p >= v) by (nonlinear_arith)
        requires
            p >= 1,
    ;
}

/// With a point at `k`, every other character is a digit.
proof fn lemma_point_unique(s: Seq<char>, k: int, j: int)
    requires
        is_point_at(s, k),
        0 <= j < s.len(),
        j != k,
    ensures
        is_digit(s[j]),
{
    if j < k {
        assert(s.take(k)[j] == s[j]);
    } else {
        assert(s.skip(k + 1)[j - k - 1] == s[j]);
    }
}

proof fn lemma_pow10_add(a: nat, b: nat)
    ensures
        pow10(a + b) == pow10(a) * pow10(b),
    decreases a,
{
    if a > 0 {
        let a1 = (a - 1) as nat;
        lemma_pow10_add(a1, b);
        assert(a + b == (a1 + b) + 1);
        assert(pow10(a + b) == 10 * pow10(a1 + b));
        assert(pow10(a) == 10 * pow10(a1));
        let pa = pow10(a1);
        let pb = pow10(b);
        assert(10 * (pa * pb) == (10 * pa) * pb) by (nonlinear_arith);
        assert(pow10(a + b) == 10 * (pa * pb));
        assert(pow10(a + b) == pow10(a) * pow10(b));
    } else {
        assert(a + b == b);
        assert(pow10(0) == 1);
        assert(1 * pow10(b) == pow10(b));
    }
}

proof fn lemma_pow10_facts()
    ensures
        pow10(18) == UNIT,
        pow10(38) == 100_000_000_000_000_000_000_000_000_000_000_000_000,
        pow10(39) > u128::MAX,
{
    reveal_with_fuel(pow10, 40);
}

/// A run of digits is its significand followed by its trailing zeros; the
/// significand does not end in a zero.
proof fn lemma_significand(d: Seq<char>)
    requires
        all_digits(d),
    ensures
        digits_value(d) == significand(d) * pow10(trailing_zeros(d)),
        significand(d) == 0 || significand(d) % 10 != 0,
    decreases d.len(),
{
    if d.len() == 0 {
        assert(significand(d) == 0 && digits_value(d) == 0);
        assert(0 * pow10(trailing_zeros(d)) == 0);
    } else {
        let init = d.drop_last();
        assert forall|i: int| 0 <= i < init.len() implies is_digit(#[trigger] init[i]) by {
            assert(init[i] == d[i]);
        }
        lemma_significand(init);
        assert(is_digit(d[d.len() - 1]));
        if d.last() == '0' {
            let c = significand(init);
            let p = pow10(trailing_zeros(init));
            assert(digit_value(d.last()) == 0);
            assert(trailing_zeros(d) == trailing_zeros(init) + 1);
            assert(significand(d) == c);
            assert(pow10(trailing_zeros(d)) == 10 * p);
            assert(digits_value(d) == digits_value(init) * 10);
            assert(c * p * 10 == c * (10 * p)) by (nonlinear_arith);
            assert(digits_value(init) == c * p);
            assert(digits_value(d) == significand(d) * pow10(trailing_zeros(d)));
        } else {
            let v = digits_value(init);
            let c = digit_value(d.last());
            assert(trailing_zeros(d) == 0 && pow10(0) == 1);
            assert(significand(d) == digits_value(d));
            assert(digits_value(d) * 1 == digits_value(d));
            assert(1 <= c <= 9);
            assert((v * 10 + c) % 10 == c) by (nonlinear_arith)
                requires
                    c < 10,
            ;
        }
    }
}

/// What `units_of` gives for a significand followed by `z` zeros.
proof fn lemma_units(core: nat, z: nat, shift: int)
    requires
        core == 0 || core % 10 != 0,
    ensures
        units_of(core * pow10(z), shift) == (if core == 0 {
            Some(Decimal { units: 0 })
        } else if z + shift < 0 {
            None
        } else if core * pow10((z + shift) as nat) <= u128::MAX {
            Some(Decimal { units: (core * pow10((z + shift) as nat)) as u128 })
        } else {
            None
        }),
{
    let v = core * pow10(z);
    lemma_pow10_positive(z);
    if shift >= 0 {
        lemma_pow10_add(z, shift as nat);
        vstd::arithmetic::mul::lemma_mul_is_associative(core as int, pow10(z) as int, pow10(shift as nat) as int);
    } else {
        let j = (-shift) as nat;
        lemma_pow10_positive(j);
        if j <= z {
            lemma_pow10_add((z - j) as nat, j);
            vstd::arithmetic::mul::lemma_mul_is_associative(core as int, pow10((z - j) as nat) as int, pow10(j) as int);
            let w = core * pow10((z - j) as nat);
            vstd::arithmetic::div_mod::lemma_mod_multiples_basic(w as int, pow10(j) as int);
            vstd::arithmetic::div_mod::lemma_div_multiples_vanish(w as int, pow10(j) as int);
            assert(pow10(j) * w == w * pow10(j)) by (nonlinear_arith);
        } else if core == 0 {
            assert(v == 0);
            assert(0nat % pow10(j) == 0 && 0nat / pow10(j) == 0) by (nonlinear_arith)
                requires
                    pow10(j) > 0,
            ;
        } else {
            if v % pow10(j) == 0 {
                let q = v / pow10(j);
                vstd::arithmetic::div_mod::lemma_fundamental_div_mod(v as int, pow10(j) as int);
                lemma_pow10_add(z, (j - z) as nat);
                let r = pow10((j - z - 1) as nat);
                assert(pow10((j - z) as nat) == 10 * r);
                let y = 10 * r * q;
                assert(pow10(z) * core == pow10(z) * y) by (nonlinear_arith)
                    requires
                        v == core * pow10(z),
                        v == pow10(j) * q,
                        pow10(j) == pow10(z) * (10 * r),
                        y == 10 * r * q,
                ;
                vstd::arithmetic::mul::lemma_mul_equality_converse(pow10(z) as int, core as int, y as int);
                assert((r * q) * 10 == y) by (nonlinear_arith)
                    requires
                        y == 10 * r * q,
                ;
                vstd::arithmetic::div_mod::lemma_mod_multiples_basic((r * q) as int, 10);
            }
        }
    }
}

/// A significand of at least one, shifted 39 places or more, exceeds `u128`.
proof fn lemma_too_large(core: nat, t: nat)
    requires
        core >= 1,
        t >= 39,
    ensures
        core * pow10(t) > u128::MAX,
{
    lemma_pow10_facts();
    lemma_pow10_monotone(39, t);
    assert(core * pow10(t) >= pow10(t)) by (nonlinear_arith)
        requires
            core >= 1,
    ;
}

/// A character that is neither a digit nor the first point spoils a mantissa.
proof fn lemma_bad_mantissa_char(s: Seq<char>, i: int, point: Option<usize>)
    requires
        0 <= i < s.len(),
        !is_digit(s[i]),
        s[i] != '.' || (point matches Some(k0) && k0 < i && s[k0 as int] == '.'),
    ensures
        mantissa_of(s) is None,
{
    assert(!all_digits(s));
    assert forall|k: int| !is_point_at(s, k) by {
        if is_point_at(s, k) {
            if k != i {
                lemma_point_unique(s, k, i);
            } else {
                let k0 = point->Some_0 as int;
                lemma_point_unique(s, k, k0);
            }
        }
    }
}

/// `10^n` for `n <= 38`, the largest power of ten a `u128` holds.
fn power_of_ten(n: u64) -> (r: u128)
    requires
        n <= 38,
    ensures
        r == pow10(n as nat),
{
    let mut r: u128 = 1;
    let mut i: u64 = 0;
    proof {
        lemma_pow10_facts();
    }
    while i < n
        invariant
            i <= n <= 38,
            r == pow10(i as nat),
            pow10(38) == 100_000_000_000_000_000_000_000_000_000_000_000_000,
        decreases n - i,
    {
        proof {
            lemma_pow10_monotone((i + 1) as nat, 38);
        }
        r = r * 10;
        i = i + 1;
    }
    r
}

/// The index of the first exponent mark, or the length of the text.
fn find_mark(text: &str) -> (r: usize)
    ensures
        r <= text@.len(),
        forall|i: int| 0 <= i < r ==> !is_exponent_mark(#[trigger] text@[i]),
        r < text@.len() ==> is_exponent_mark(text@[r as int]),
{
    let n = text.unicode_len();
    let mut i: usize = 0;
    while i < n
        invariant
            n == text@.len(),
            i <= n,
            forall|j: int| 0 <= j < i ==> !is_exponent_mark(#[trigger] text@[j]),
        decreases n - i,
    {
        let c = text.get_char(i);
        if c == 'e' || c == 'E' {
            return i;
        }
        i = i + 1;
    }
    i
}

/// Reads the mantissa `text[..end]`: its significand (or whether that
/// exceeds `u128`), its trailing zeros and its number of fractional digits.
fn scan_mantissa(text: &str, end: usize) -> (r: Option<(u128, bool, usize, usize)>)
    requires
        end <= text@.len(),
    ensures
        r is None <==> mantissa_of(text@.take(end as int)) is None,
        r matches Some((acc, over, z, frac)) ==> {
            let (d, f) = mantissa_of(text@.take(end as int))->Some_0;
            &&& all_digits(d)
            &&& f == frac
            &&& z == trailing_zeros(d)
            &&& over == (significand(d) > u128::MAX)
            &&& !over ==> acc == significand(d)
        },
{
    let ghost s = text@.take(end as int);
    let n = end;
    let mut acc: u128 = 0;
    let mut overflow = false;
    let mut zeros: usize = 0;
    let mut point: Option<usize> = None;
    let ghost mut digits: Seq<char> = seq![];
    let mut i: usize = 0;
    while i < n
        invariant
            n == s.len(),
            n == end,
            n <= text@.len(),
            s == text@.take(n as int),
            i <= n,
            point matches Some(k) ==> {
                &&& k < i
                &&& s[k as int] == '.'
                &&& all_digits(s.take(k as int))
                &&& all_digits(s.subrange(k + 1, i as int))
                &&& digits == s.take(k as int) + s.subrange(k + 1, i as int)
            },
            point is None ==> all_digits(s.take(i as int)) && digits == s.take(i as int),
            all_digits(digits),
            zeros == trailing_zeros(digits),
            zeros <= i,
            overflow == (significand(digits) > u128::MAX),
            !overflow ==> acc == significand(digits),
        decreases n - i,
    {
        let c = text.get_char(i);
        assert(c == s[i as int]);
        match digit_of(c) {
            Some(d) => {
                let ghost old_digits = digits;
                proof {
                    lemma_significand(digits);
                    lemma_digits_value_push(digits, c);
                    digits = digits.push(c);
                    assert(digits.drop_last() =~= old_digits);
                    assert forall|j: int| 0 <= j < digits.len() implies is_digit(#[trigger] digits[j]) by {
                        if j < old_digits.len() {
                            assert(digits[j] == old_digits[j]);
                        }
                    }
                }
                if d == 0 {
                    zeros = zeros + 1;
                } else {
                    proof {
                        let core = significand(old_digits);
                        assert(significand(digits) == core * pow10((zeros + 1) as nat) + d) by {
                            vstd::arithmetic::mul::lemma_mul_is_associative(core as int, pow10(zeros as nat) as int, 10);
                            assert(pow10((zeros + 1) as nat) == 10 * pow10(zeros as nat));
                        }
                        lemma_pow10_positive((zeros + 1) as nat);
                        lemma_scale_up(core, pow10((zeros + 1) as nat));
                    }
                    if !overflow {
                        if acc == 0 {
                            acc = d as u128;
                        } else if zeros >= 38 {
                            proof {
                                lemma_pow10_facts();
                                lemma_pow10_monotone(39, (zeros + 1) as nat);
                                lemma_scale_up(pow10((zeros + 1) as nat), acc as nat);
                                assert(acc * pow10((zeros + 1) as nat) >= pow10((zeros + 1) as nat)) by (nonlinear_arith)
                                    requires
                                        acc >= 1,
                                ;
                            }
                            overflow = true;
                        } else {
                            let p = power_of_ten((zeros + 1) as u64);
                            match acc.checked_mul(p) {
                                Some(x) => match x.checked_add(d as u128) {
                                    Some(y) => {
                                        acc = y;
                                    },
                                    None => {
                                        overflow = true;
                                    },
                                },
                                None => {
                                    overflow = true;
                                },
                            }
                        }
                    }
                    zeros = 0;
                }
            },
            None => {
                if c == '.' && point.is_none() {
                    point = Some(i);
                    assert(s.subrange(i + 1, i + 1) =~= Seq::<char>::empty());
                    assert(digits + Seq::<char>::empty() =~= digits);
                } else {
                    proof {
                        lemma_bad_mantissa_char(s, i as int, point);
                        assert(mantissa_of(text@.take(end as int)) is None);
                    }
                    return None;
                }
            },
        }
        proof {
            assert(s.take(i + 1) =~= s.take(i as int).push(c));
            if let Some(k) = point {
                if k < i {
                    assert(s.subrange(k + 1, i + 1) =~= s.subrange(k + 1, i as int).push(c));
                    assert(digits =~= s.take(k as int) + s.subrange(k + 1, i + 1));
                } else {
                    assert(s.subrange(k + 1, i + 1) =~= Seq::<char>::empty());
                    assert(all_digits(s.take(k as int)));
                }
            }
        }
        i = i + 1;
    }
    let frac: usize = match point {
        Some(k) => n - k - 1,
        None => 0,
    };
    proof {
        match point {
            Some(k) => {
                assert(s.subrange(k + 1, n as int) =~= s.skip(k + 1));
                assert(is_point_at(s, k as int));
                assert(!all_digits(s));
                if n > 1 {
                    let k2 = choose|k2: int| is_point_at(s, k2);
                    if k2 != k {
                        lemma_point_unique(s, k2, k as int);
                    }
                }
            },
            None => {
                assert(s.take(n as int) =~= s);
            },
        }
    }
    if n == 0 || (n == 1 && point.is_some()) {
        return None;
    }
    Some((acc, overflow, zeros, frac))
}

/// Reads the exponent `text[start..]`: whether it is negative, its magnitude
/// (or whether that exceeds `u128`).
fn scan_exponent(text: &str, start: usize) -> (r: Option<(bool, u128, bool)>)
    requires
        start <= text@.len(),
    ensures
        r is None <==> exponent_of(text@.skip(start as int)) is None,
        r matches Some((neg, mag, big)) ==> {
            let (sign, e) = exponent_of(text@.skip(start as int))->Some_0;
            &&& neg == sign
            &&& big == (e > u128::MAX)
            &&& !big ==> mag == e
        },
{
    let ghost x = text@.skip(start as int);
    let n = text.unicode_len();
    if start == n {
        return None;
    }
    let c0 = text.get_char(start);
    let neg = c0 == '-';
    let first: usize = if c0 == '+' || c0 == '-' {
        start + 1
    } else {
        start
    };
    if first == n {
        proof {
            assert(x.len() == 1 && x[0] == c0);
        }
        return None;
    }
    let mut acc: u128 = 0;
    let mut big = false;
    let mut i: usize = first;
    while i < n
        invariant
            n == text@.len(),
            x == text@.skip(start as int),
            first == start ==> !(x[0] == '+' || x[0] == '-'),
            first > start ==> (x[0] == '+' || x[0] == '-'),
            first <= i <= n,
            start <= first <= start + 1,
            all_digits(text@.subrange(first as int, i as int)),
            !big ==> acc == digits_value(text@.subrange(first as int, i as int)),
            big ==> digits_value(text@.subrange(first as int, i as int)) > u128::MAX,
        decreases n - i,
    {
        let c = text.get_char(i);
        let ghost prev = text@.subrange(first as int, i as int);
        proof {
            assert(text@.subrange(first as int, i + 1) =~= prev.push(c));
            lemma_digits_value_push(prev, c);
        }
        match digit_of(c) {
            Some(d) => {
                if !big {
                    if acc > (u128::MAX - d as u128) / 10 {
                        big = true;
                    } else {
                        acc = acc * 10 + d as u128;
                    }
                }
            },
            None => {
                proof {
                    assert(x[i - start] == c);
                    if first > start {
                        assert(x.skip(1)[i - start - 1] == c);
                    }
                }
                return None;
            },
        }
        i = i + 1;
    }
    proof {
        if first > start {
            assert(text@.subrange(first as int, n as int) =~= x.skip(1));
            assert(!is_digit(x[0]));
        } else {
            assert(text@.subrange(first as int, n as int) =~= x);
        }
    }
    Some((neg && first > start, acc, big))
}

/// With a valid mantissa before it, an exponent mark is the only one.
proof fn lemma_mantissa_has_no_mark(m: Seq<char>, j: int)
    requires
        mantissa_of(m) is Some,
        0 <= j < m.len(),
    ensures
        !is_exponent_mark(m[j]),
{
    if !all_digits(m) {
        let k = choose|k: int| is_point_at(m, k);
        if j != k {
            lemma_point_unique(m, k, j);
        }
    }
}

proof fn lemma_exponent_has_no_mark(x: Seq<char>, j: int)
    requires
        exponent_of(x) is Some,
        0 <= j < x.len(),
    ensures
        !is_exponent_mark(x[j]),
{
    if !all_digits(x) && j > 0 {
        assert(x.skip(1)[j - 1] == x[j]);
    }
}

/// Decodes the wire text of a price or size.
pub fn parse_decimal(text: &str) -> (r: Result<Decimal, DecodeError>)
    ensures
        r == (match decimal_of(text@) {
            Some(d) => Ok::<Decimal, DecodeError>(d),
            None => Err(DecodeError::NumericFormat),
        }),
{
    let ghost s = text@;
    let n = text.unicode_len();
    let k = find_mark(text);
    let mant = scan_mantissa(text, k);
    let exp = if k < n {
        scan_exponent(text, k + 1)
    } else {
        Some((false, 0u128, false))
    };
    proof {
        if k < n {
            assert(is_mark_at(s, k as int));
            let k2 = choose|k2: int| is_mark_at(s, k2);
            if k2 != k {
                assert(k2 > k);
                if mant is Some && exp is Some {
                    lemma_exponent_has_no_mark(s.skip(k + 1), k2 - k - 1);
                    assert(s.skip(k + 1)[k2 - k - 1] == s[k2]);
                }
                if mantissa_of(s.take(k2)) is Some {
                    lemma_mantissa_has_no_mark(s.take(k2), k as int);
                    assert(s.take(k2)[k as int] == s[k as int]);
                }
            }
        } else {
            assert(s.take(n as int) =~= s);
            assert forall|k2: int| !is_mark_at(s, k2) by {
                if 0 <= k2 < n {
                    assert(!is_exponent_mark(s[k2]));
                }
            }
        }
    }
    let (acc, over, zeros, frac) = match mant {
        Some(m) => m,
        None => {
            return Err(DecodeError::NumericFormat);
        },
    };
    let (neg, mag, big) = match exp {
        Some(e) => e,
        None => {
            return Err(DecodeError::NumericFormat);
        },
    };
    let ghost d = mantissa_of(s.take(k as int))->Some_0.0;
    let ghost e: int = if k < n {
        let (sign, m) = exponent_of(s.skip(k + 1))->Some_0;
        if sign {
            -m
        } else {
            m as int
        }
    } else {
        0
    };
    let ghost shift: int = 18 - frac + e;
    proof {
        lemma_significand(d);
        assert(decimal_of(s) == units_of(digits_value(d), shift));
    }
    scale_significand(acc, over, zeros, frac, neg, mag, big, Ghost(significand(d)), Ghost(if k < n {
        exponent_of(s.skip(k + 1))->Some_0.1
    } else {
        0
    }))
}

/// The decimal whose significand is `core` (held in `acc` unless `over`),
/// followed by `zeros` zeros and with `frac` fractional digits, times ten to
/// the exponent of sign `neg` and magnitude `e` (held in `mag` unless `big`).
fn scale_significand(
    acc: u128,
    over: bool,
    zeros: usize,
    frac: usize,
    neg: bool,
    mag: u128,
    big: bool,
    Ghost(core): Ghost<nat>,
    Ghost(e): Ghost<nat>,
) -> (r: Result<Decimal, DecodeError>)
    requires
        core == 0 || core % 10 != 0,
        over == (core > u128::MAX),
        !over ==> acc == core,
        big == (e > u128::MAX),
        !big ==> mag == e,
    ensures
        r == (match units_of(core * pow10(zeros as nat), 18 - frac + if neg {
            -e
        } else {
            e as int
        }) {
            Some(d) => Ok::<Decimal, DecodeError>(d),
            None => Err(DecodeError::NumericFormat),
        }),
{
    let ghost shift: int = 18 - frac + if neg {
        -e
    } else {
        e as int
    };
    proof {
        lemma_units(core, zeros as nat, shift);
        lemma_pow10_facts();
    }
    if !over && acc == 0 {
        return Ok(Decimal { units: 0 });
    }
    // From here on the significand is at least one.
    let bad = Err(DecodeError::NumericFormat);
    if big {
        proof {
            if !neg {
                lemma_too_large(core, (zeros + shift) as nat);
            }
        }
        return bad;
    }
    let up: u128 = if neg {
        0
    } else {
        mag
    };
    let down: u128 = if neg {
        mag
    } else {
        0
    };
    let lhs = match (zeros as u128 + 18).checked_add(up) {
        Some(v) => v,
        None => {
            proof {
                lemma_too_large(core, (zeros + shift) as nat);
            }
            return bad;
        },
    };
    let rhs = match (frac as u128).checked_add(down) {
        Some(v) => v,
        None => {
            return bad;
        },
    };
    if lhs < rhs || lhs - rhs > 38 {
        proof {
            if lhs >= rhs {
                lemma_pow10_monotone(39, (lhs - rhs) as nat);
                assert(core * pow10((lhs - rhs) as nat) >= pow10((lhs - rhs) as nat)) by (nonlinear_arith)
                    requires
                        core >= 1,
                ;
            }
        }
        return bad;
    }
    if over {
        proof {
            lemma_pow10_positive((lhs - rhs) as nat);
            lemma_scale_up(core, pow10((lhs - rhs) as nat));
        }
        return bad;
    }
    let p = power_of_ten((lhs - rhs) as u64);
    match acc.checked_mul(p) {
        Some(units) => Ok(Decimal { units }),
        None => bad,
    }
}

/// Decodes the wire text of a revision marker.
pub fn parse_revision(text: &str) -> (r: Result<u64, DecodeError>)
    ensures
        r == (match revision_of(text@) {
            Some(v) => Ok::<u64, DecodeError>(v),
            None => Err(DecodeError::NumericFormat),
        }),
{
    let ghost s = text@;
    let n = text.unicode_len();
    if n == 0 {
        return Err(DecodeError::NumericFormat);
    }
    let mut acc: u64 = 0;
    let mut i: usize = 0;
    while i < n
        invariant
            n == s.len(),
            s == text@,
            i <= n,
            all_digits(s.take(i as int)),
            acc == digits_value(s.take(i as int)),
        decreases n - i,
    {
        let c = text.get_char(i);
        proof {
            assert(s.take(i + 1) =~= s.take(i as int).push(c));
            lemma_digits_value_push(s.take(i as int), c);
        }
        match digit_of(c) {
            Some(d) => {
                if acc > (u64::MAX - d as u64) / 10 {
                    proof {
                        lemma_digits_value_grows(s.take(i + 1), s.skip(i + 1));
                        assert(s.take(i + 1) + s.skip(i + 1) =~= s);
                    }
                    return Err(DecodeError::NumericFormat);
                }
                acc = acc * 10 + d as u64;
            },
            None => {
                return Err(DecodeError::NumericFormat);
            },
        }
        i = i + 1;
    }
    assert(s.take(n as int) =~= s);
    Ok(acc)
}

/// Decodes one wire pair into a price level.
pub fn decode_level(price: &str, size: &str) -> (r: Result<PriceLevel, DecodeError>)
    ensures
        r == (match level_of(price@, size@) {
            Some(l) => Ok::<PriceLevel, DecodeError>(l),
            None => Err(DecodeError::NumericFormat),
        }),
{
    let p = parse_decimal(price)?;
    let q = parse_decimal(size)?;
    Ok(PriceLevel { price: p, size: q })
}

/// Decodes wire pairs into price levels, keeping their number and order.
/// Sorting is left to the book.
pub fn decode_levels(raw: &Vec<(String, String)>) -> (r: Result<Vec<PriceLevel>, DecodeError>)
    ensures
        r matches Ok(v) ==> levels_of(pair_texts(raw@)) == Some(v@),
        r is Err <==> levels_of(pair_texts(raw@)) is None,
        r is Err ==> r == Err::<Vec<PriceLevel>, DecodeError>(DecodeError::NumericFormat),
{
    let ghost texts = pair_texts(raw@);
    let mut out: Vec<PriceLevel> = Vec::new();
    let mut i: usize = 0;
    while i < raw.len()
        invariant
            i <= raw.len(),
            texts == pair_texts(raw@),
            texts.len() == raw.len(),
            out.len() == i,
            forall|j: int| 0 <= j < i ==> (#[trigger] level_of(texts[j].0, texts[j].1)) == Some(out@[j]),
        decreases raw.len() - i,
    {
        let level = decode_level(raw[i].0.as_str(), raw[i].1.as_str());
        match level {
            Ok(l) => {
                out.push(l);
            },
            Err(e) => {
                assert(level_of(texts[i as int].0, texts[i as int].1) is None);
                return Err(e);
            },
        }
        i = i + 1;
    }
    assert(Seq::new(texts.len(), |j: int| level_of(texts[j].0, texts[j].1)->Some_0) =~= out@);
    Ok(out)
}

} // verus!
