//! Timestamps of the diagnostic stream.
//!
//! A timestamp is a whole number of microseconds, the unit in which the media
//! engine itself counts time. The stream writes timestamps as decimal numbers
//! of seconds; this module says which words are such numbers and what each
//! one is worth, and writes a timestamp back in the form the engine reads.

use vstd::prelude::*;
use vstd::arithmetic::div_mod::lemma_basic_div;
use crate::digits::{all_digits, decimal_digits, decimal_value, digit_run, digit_value};
use crate::digits::{count_digits, digit_of, is_ascii_digit, push_decimal, push_fixed_decimal};
use crate::digits::{fixed_decimal, is_digit, pow10};
use crate::digits::{lemma_decimal_digits_value, lemma_decimal_value_bound};
use crate::digits::{lemma_decimal_value_concat, lemma_decimal_value_prefix};
use crate::digits::{lemma_digit_run_stops, lemma_fixed_decimal_value};
use crate::digits::{lemma_pow10_add, lemma_pow10_monotonic, lemma_pow10_positive};

verus! {

/// The largest magnitude a timestamp may have, in microseconds: 10^12 seconds.
/// The difference of two timestamps therefore always fits in an `i64`.
pub const MAX_MICROS: i64 = 1_000_000_000_000_000_000;

/// Microseconds in a second.
pub const MICROS_PER_SECOND: u64 = 1_000_000;

/// `v` times ten to the power `k`, rounded toward zero where `k` is negative.
pub open spec fn scale(v: nat, k: int) -> nat {
    if k >= 0 {
        v * pow10(k as nat)
    } else {
        v / pow10((-k) as nat)
    }
}

/// Whether `s` begins with a sign.
pub open spec fn has_sign(s: Seq<char>) -> bool {
    s.len() > 0 && (s[0] == '+' || s[0] == '-')
}

/// `s` without its sign, if it begins with one.
pub open spec fn unsigned_part(s: Seq<char>) -> Seq<char> {
    if has_sign(s) {
        s.skip(1)
    } else {
        s
    }
}

/// Whether `s` begins with a minus sign.
pub open spec fn is_negative(s: Seq<char>) -> bool {
    s.len() > 0 && s[0] == '-'
}

/// Number of digits before the decimal point of the unsigned number `u`.
pub open spec fn integer_len(u: Seq<char>) -> nat {
    digit_run(u)
}

/// Whether a decimal point follows the integer digits of `u`.
pub open spec fn has_point(u: Seq<char>) -> bool {
    integer_len(u) < u.len() && u[integer_len(u) as int] == '.'
}

/// Where the fraction digits of `u` begin.
pub open spec fn fraction_start(u: Seq<char>) -> nat {
    if has_point(u) {
        integer_len(u) + 1
    } else {
        integer_len(u)
    }
}

/// Number of digits after the decimal point of `u`.
pub open spec fn fraction_len(u: Seq<char>) -> nat {
    if has_point(u) {
        digit_run(u.skip(fraction_start(u) as int))
    } else {
        0
    }
}

/// Where the mantissa of `u` ends: the exponent, if any, begins here.
pub open spec fn mantissa_end(u: Seq<char>) -> nat {
    fraction_start(u) + fraction_len(u)
}

/// The digits of the mantissa of `u`, those before the point and those after it.
pub open spec fn mantissa_digits(u: Seq<char>) -> Seq<char> {
    u.take(integer_len(u) as int) + u.subrange(
        fraction_start(u) as int,
        mantissa_end(u) as int,
    )
}

/// The power of ten that the exponent part `tail` asks for. An empty tail asks
/// for none; otherwise the tail is `e` or `E`, an optional sign and at least
/// one digit. `None` where `tail` is neither.
pub open spec fn exponent_value(tail: Seq<char>) -> Option<int> {
    if tail.len() == 0 {
        Some(0)
    } else if tail[0] == 'e' || tail[0] == 'E' {
        let signed = tail.skip(1);
        let digits = unsigned_part(signed);
        if digits.len() > 0 && all_digits(digits) {
            if is_negative(signed) {
                Some(-decimal_value(digits))
            } else {
                Some(decimal_value(digits))
            }
        } else {
            None
        }
    } else {
        None
    }
}

/// What the word `token` is worth as a timestamp, in microseconds.
///
/// A timestamp is written as an optional sign, digits with an optional decimal
/// point among them (at least one digit in all), and an optional exponent. Its
/// worth is the number written, in seconds, times 10^6 and rounded toward
/// zero. A word of any other shape, or one worth more than [`MAX_MICROS`] in
/// magnitude, is no timestamp.
pub open spec fn timestamp_micros(token: Seq<char>) -> Option<int> {
    let u = unsigned_part(token);
    if integer_len(u) + fraction_len(u) == 0 {
        None
    } else {
        match exponent_value(u.skip(mantissa_end(u) as int)) {
            None => None,
            Some(e) => {
                let magnitude = scale(
                    decimal_value(mantissa_digits(u)) as nat,
                    6 + e - fraction_len(u),
                );
                if magnitude > MAX_MICROS {
                    None
                } else if is_negative(token) {
                    Some(-(magnitude as int))
                } else {
                    Some(magnitude as int)
                }
            },
        }
    }
}

/// The number written by the digits of `v` followed by those of `s`.
spec fn joined(v: nat, s: Seq<char>) -> int {
    v * pow10(s.len()) + decimal_value(s)
}

/// Digits can be joined to a number part by part.
proof fn lemma_joined_split(v: nat, a: Seq<char>, b: Seq<char>)
    requires
        all_digits(a),
    ensures
        joined(v, a) >= 0,
        joined(v, a + b) == joined(joined(v, a) as nat, b),
{
    lemma_decimal_value_bound(a);
    lemma_decimal_value_concat(a, b);
    lemma_pow10_add(a.len(), b.len());
    let pa = pow10(a.len()) as int;
    let pb = pow10(b.len()) as int;
    let da = decimal_value(a);
    let vi = v as int;
    assert(pow10((a + b).len()) == pa * pb);
    assert(vi * pa >= 0) by (nonlinear_arith)
        requires
            vi >= 0,
            pa >= 0,
    ;
    assert(vi * (pa * pb) + da * pb == (vi * pa + da) * pb) by (nonlinear_arith);
}

/// Joining digits to a number never makes it smaller.
proof fn lemma_joined_grows(v: nat, s: Seq<char>)
    requires
        all_digits(s),
    ensures
        joined(v, s) >= v,
{
    lemma_decimal_value_bound(s);
    lemma_pow10_positive(s.len());
    let p = pow10(s.len()) as int;
    let vi = v as int;
    assert(vi * p >= vi) by (nonlinear_arith)
        requires
            vi >= 0,
            p >= 1,
    ;
}

/// Writes the digits `t[lo..hi]` after those of `acc`, as long as the number
/// stays within [`MAX_MICROS`].
fn append_digits(t: &[char], lo: usize, hi: usize, acc: u64) -> (r: Option<u64>)
    requires
        lo <= hi <= t.len(),
        all_digits(t@.subrange(lo as int, hi as int)),
        acc <= MAX_MICROS,
    ensures
        match r {
            Some(v) => v == joined(acc as nat, t@.subrange(lo as int, hi as int)) && v
                <= MAX_MICROS,
            None => joined(acc as nat, t@.subrange(lo as int, hi as int)) > MAX_MICROS,
        },
{
    let ghost whole = t@.subrange(lo as int, hi as int);
    let mut cur: u64 = acc;
    let mut i: usize = lo;
    proof {
        assert(t@.subrange(lo as int, lo as int) =~= Seq::<char>::empty());
        assert(pow10(0) == 1);
    }
    while i < hi
        invariant
            lo <= i <= hi <= t.len(),
            whole == t@.subrange(lo as int, hi as int),
            all_digits(whole),
            cur == joined(acc as nat, t@.subrange(lo as int, i as int)),
            cur <= MAX_MICROS,
        decreases hi - i,
    {
        let ghost done = t@.subrange(lo as int, i as int);
        let ghost next = t@.subrange(lo as int, i + 1);
        let ghost rest = t@.subrange(i + 1, hi as int);
        proof {
            assert(is_digit(whole[i - lo]));
            assert(next =~= done + seq![t@[i as int]]);
            assert(whole =~= next + rest);
            assert forall|k: int| 0 <= k < done.len() implies is_digit(#[trigger] done[k]) by {
                assert(done[k] == whole[k]);
            }
            assert forall|k: int| 0 <= k < next.len() implies is_digit(#[trigger] next[k]) by {
                assert(next[k] == whole[k]);
            }
            assert forall|k: int| 0 <= k < rest.len() implies is_digit(#[trigger] rest[k]) by {
                assert(rest[k] == whole[k + i + 1 - lo]);
            }
            let one = seq![t@[i as int]];
            lemma_joined_split(acc as nat, done, one);
            assert(one.drop_last() =~= Seq::<char>::empty());
            assert(decimal_value(one) == digit_value(t@[i as int])) by {
                reveal_with_fuel(decimal_value, 2);
            }
            assert(pow10(1) == 10) by {
                reveal_with_fuel(pow10, 2);
            }
            assert(joined(acc as nat, next) == cur * 10 + digit_value(t@[i as int]));
            lemma_joined_split(acc as nat, next, rest);
            lemma_joined_grows(joined(acc as nat, next) as nat, rest);
        }
        let d: u8 = digit_of(t[i]);
        let grown: u64 = cur * 10 + d as u64;
        if grown > MAX_MICROS as u64 {
            return None;
        }
        cur = grown;
        i += 1;
    }
    Some(cur)
}

/// Multiplies `v` by ten to the power `pad`, as long as the number stays
/// within [`MAX_MICROS`].
fn append_zeros(v: u64, pad: u128) -> (r: Option<u64>)
    requires
        v <= MAX_MICROS,
    ensures
        match r {
            Some(x) => x == v * pow10(pad as nat) && x <= MAX_MICROS,
            None => v * pow10(pad as nat) > MAX_MICROS,
        },
{
    if v == 0 {
        assert(0 * pow10(pad as nat) == 0);
        return Some(0);
    }
    let mut cur: u64 = v;
    let mut j: u128 = 0;
    proof {
        assert(pow10(0) == 1);
        assert(v * 1 == v);
    }
    while j < pad
        invariant
            j <= pad,
            1 <= v,
            cur == v * pow10(j as nat),
            cur <= MAX_MICROS,
        decreases pad - j,
    {
        let grown: u64 = cur * 10;
        proof {
            let pj = pow10(j as nat) as int;
            let vi = v as int;
            assert(pow10((j + 1) as nat) == 10 * pj);
            assert(vi * (10 * pj) == (vi * pj) * 10) by (nonlinear_arith);
            lemma_pow10_monotonic((j + 1) as nat, pad as nat);
            let pn = pow10((j + 1) as nat) as int;
            let pp = pow10(pad as nat) as int;
            assert(vi * pn <= vi * pp) by (nonlinear_arith)
                requires
                    vi >= 0,
                    pn <= pp,
            ;
        }
        if grown > MAX_MICROS as u64 {
            return None;
        }
        cur = grown;
        j += 1;
    }
    Some(cur)
}

/// Exponents are followed exactly up to this magnitude. A larger one either
/// makes the number zero or puts it out of range, whatever its exact size.
const EXPONENT_LIMIT: u128 = 1_000_000_000_000_000_000_000_000_000_000;

/// Whether `approx` stands for the exponent `exact`: the two are equal within
/// [`EXPONENT_LIMIT`], and beyond it `exact` lies at least as far out.
spec fn tracks(approx: int, exact: int) -> bool {
    &&& -10 * EXPONENT_LIMIT - 9 <= approx <= 10 * EXPONENT_LIMIT + 9
    &&& -EXPONENT_LIMIT <= approx <= EXPONENT_LIMIT ==> exact == approx
    &&& approx > EXPONENT_LIMIT ==> exact >= approx
    &&& approx < -EXPONENT_LIMIT ==> exact <= approx
}

/// Ten to the power nineteen is out of the range of timestamps.
proof fn lemma_pow10_19()
    ensures
        pow10(19) == 10_000_000_000_000_000_000,
        pow10(19) > MAX_MICROS,
{
    reveal_with_fuel(pow10, 20);
}

/// Multiplying by a power of ten never makes a number smaller, and by a
/// larger power no smaller than by a smaller one.
proof fn lemma_scale_up_monotonic(v: nat, a: nat, b: nat)
    requires
        a <= b,
    ensures
        v * pow10(a) <= v * pow10(b),
        v <= v * pow10(a),
{
    lemma_pow10_monotonic(a, b);
    lemma_pow10_positive(a);
    let pa = pow10(a) as int;
    let pb = pow10(b) as int;
    let vi = v as int;
    assert(vi * pa <= vi * pb && vi <= vi * pa) by (nonlinear_arith)
        requires
            vi >= 0,
            1 <= pa <= pb,
    ;
}

/// The number that the first `shift` digits of `digits` write; where `shift`
/// is more than their count, as many zeros are written after them.
spec fn shifted_value(digits: Seq<char>, shift: int) -> int {
    if shift <= 0 {
        0
    } else if shift < digits.len() {
        decimal_value(digits.take(shift))
    } else {
        decimal_value(digits) * pow10((shift - digits.len()) as nat)
    }
}

/// The worth of a mantissa with the digits `digits`, `n_int` of them before
/// the point, follows from the digits alone, given an exponent that is known
/// only as far as `approx` tracks it: it is the shifted value wherever that
/// is in range, and out of range wherever that is.
proof fn lemma_scale_cases(digits: Seq<char>, n_int: nat, approx: int, exact: int)
    requires
        all_digits(digits),
        n_int <= digits.len() <= u64::MAX,
        tracks(approx, exact),
    ensures
        ({
            let shifted = shifted_value(digits, n_int + 6 + approx);
            let worth = scale(
                decimal_value(digits) as nat,
                6 + exact - (digits.len() - n_int),
            );
            &&& decimal_value(digits) >= 0
            &&& worth >= shifted >= 0
            &&& shifted <= MAX_MICROS ==> worth == shifted
        }),
{
    let len = digits.len() as int;
    let shift = n_int + 6 + approx;
    let value = decimal_value(digits);
    let k = 6 + exact - (len - n_int);
    lemma_decimal_value_bound(digits);
    if shift <= 0 {
        assert(exact <= approx);
        assert(k <= -len);
        lemma_pow10_monotonic(len as nat, (-k) as nat);
        if k < 0 {
            lemma_basic_div(value, pow10((-k) as nat) as int);
        } else {
            assert(len == 0 && k == 0);
            assert(pow10(0) == 1);
            assert(value == 0);
            assert(0 * 1 == 0);
        }
    } else if shift < len {
        assert(exact == approx);
        assert(k == shift - len);
        lemma_decimal_value_prefix(digits, (len - shift) as nat);
        let head = digits.take(shift);
        assert forall|i: int| 0 <= i < head.len() implies is_digit(#[trigger] head[i]) by {
            assert(head[i] == digits[i]);
        }
        lemma_decimal_value_bound(head);
    } else {
        let pad = (shift - len) as nat;
        assert(exact >= approx);
        assert(k >= pad);
        lemma_scale_up_monotonic(value as nat, pad, k as nat);
        if value * pow10(pad) <= MAX_MICROS && exact != approx {
            assert(pad >= 19);
            lemma_pow10_19();
            lemma_scale_up_monotonic(value as nat, 19, pad);
            if value >= 1 {
                let p19 = pow10(19) as int;
                assert(value * p19 >= p19) by (nonlinear_arith)
                    requires
                        value >= 1,
                        p19 >= 0,
                ;
            }
            assert(value == 0);
            assert(0 * pow10(pad) == 0);
            assert(0 * pow10(k as nat) == 0);
        }
    }
}

/// Reads the digits `t[lo..]` as an exponent's magnitude; `None` unless there
/// is at least one and all are digits.
fn read_exponent_digits(t: &[char], lo: usize) -> (r: Option<u128>)
    requires
        lo <= t.len(),
    ensures
        r is Some <==> lo < t.len() && all_digits(t@.skip(lo as int)),
        r matches Some(v) ==> tracks(v as int, decimal_value(t@.skip(lo as int))),
{
    if lo >= t.len() {
        return None;
    }
    let mut acc: u128 = 0;
    let mut i: usize = lo;
    proof {
        assert(t@.subrange(lo as int, lo as int) =~= Seq::<char>::empty());
    }
    while i < t.len()
        invariant
            lo <= i <= t.len(),
            all_digits(t@.subrange(lo as int, i as int)),
            tracks(acc as int, decimal_value(t@.subrange(lo as int, i as int))),
            acc >= 0,
        decreases t.len() - i,
    {
        if !is_ascii_digit(t[i]) {
            proof {
                assert(t@.skip(lo as int)[i - lo] == t@[i as int]);
            }
            return None;
        }
        let d: u8 = digit_of(t[i]);
        proof {
            let before = t@.subrange(lo as int, i as int);
            let after = t@.subrange(lo as int, i + 1);
            assert(after.drop_last() =~= before);
            assert(after.last() == t@[i as int]);
            assert forall|k: int| 0 <= k < after.len() implies is_digit(#[trigger] after[k]) by {
                if k < before.len() {
                    assert(after[k] == before[k]);
                }
            }
            lemma_decimal_value_bound(before);
        }
        if acc <= EXPONENT_LIMIT {
            acc = acc * 10 + d as u128;
        }
        i += 1;
    }
    proof {
        assert(t@.subrange(lo as int, t.len() as int) =~= t@.skip(lo as int));
    }
    Some(acc)
}

/// Reads the exponent part `t[from..]`.
fn read_exponent(t: &[char], from: usize) -> (r: Option<i128>)
    requires
        from <= t.len(),
    ensures
        r is Some <==> exponent_value(t@.skip(from as int)) is Some,
        r matches Some(e) ==> tracks(e as int, exponent_value(t@.skip(from as int)).unwrap()),
{
    let ghost tail = t@.skip(from as int);
    if from == t.len() {
        return Some(0);
    }
    assert(tail[0] == t@[from as int]);
    if t[from] != 'e' && t[from] != 'E' {
        return None;
    }
    let p: usize = from + 1;
    let ghost signed = tail.skip(1);
    assert(signed =~= t@.skip(p as int));
    let signed_here: bool = p < t.len() && (t[p] == '+' || t[p] == '-');
    let negative: bool = p < t.len() && t[p] == '-';
    let q: usize = if signed_here {
        p + 1
    } else {
        p
    };
    proof {
        if p < t.len() {
            assert(signed[0] == t@[p as int]);
        }
        assert(unsigned_part(signed) =~= t@.skip(q as int));
        assert(negative == is_negative(signed));
    }
    match read_exponent_digits(t, q) {
        None => None,
        Some(v) => if negative {
            Some(-(v as i128))
        } else {
            Some(v as i128)
        },
    }
}

/// Where the parts of a number lie in the word that holds it.
struct Layout {
    /// Index of the first integer digit.
    start: usize,
    /// Number of integer digits.
    n_int: usize,
    /// Index of the first fraction digit.
    frac_start: usize,
    /// Number of fraction digits.
    n_frac: usize,
}

/// Finds the sign, the integer digits, the point and the fraction digits of `t`.
fn locate(t: &[char]) -> (at: Layout)
    ensures
        at.start == (if has_sign(t@) { 1int } else { 0int }),
        at.n_int == integer_len(unsigned_part(t@)),
        at.frac_start == at.start + fraction_start(unsigned_part(t@)),
        at.n_frac == fraction_len(unsigned_part(t@)),
        at.frac_start + at.n_frac <= t.len(),
        all_digits(t@.subrange(at.start as int, at.start + at.n_int)),
        all_digits(t@.subrange(at.frac_start as int, at.frac_start + at.n_frac)),
{
    let len: usize = t.len();
    let start: usize = if len > 0 && (t[0] == '+' || t[0] == '-') {
        1
    } else {
        0
    };
    let ghost u = unsigned_part(t@);
    assert(u =~= t@.skip(start as int));
    let n_int: usize = count_digits(t, start);
    let dot: usize = start + n_int;
    let pointed: bool = dot < len && t[dot] == '.';
    proof {
        if dot < len {
            assert(u[n_int as int] == t@[dot as int]);
        }
        assert(pointed == has_point(u));
    }
    let frac_start: usize = if pointed {
        dot + 1
    } else {
        dot
    };
    assert(u.skip(fraction_start(u) as int) =~= t@.skip(frac_start as int));
    let n_frac: usize = if pointed {
        count_digits(t, frac_start)
    } else {
        0
    };
    proof {
        if !pointed {
            assert(t@.subrange(frac_start as int, frac_start as int) =~= Seq::<char>::empty());
        }
    }
    Layout { start, n_int, frac_start, n_frac }
}

/// Reads the number that the first `shift` mantissa digits write (see
/// [`shifted_value`]), as long as it stays within [`MAX_MICROS`].
fn read_shifted(t: &[char], at: &Layout, shift: i128) -> (r: Option<u64>)
    requires
        at.start + at.n_int <= at.frac_start,
        at.frac_start + at.n_frac <= t.len(),
        all_digits(t@.subrange(at.start as int, at.start + at.n_int)),
        all_digits(t@.subrange(at.frac_start as int, at.frac_start + at.n_frac)),
    ensures
        ({
            let digits = t@.subrange(at.start as int, at.start + at.n_int) + t@.subrange(
                at.frac_start as int,
                at.frac_start + at.n_frac,
            );
            match r {
                Some(v) => v == shifted_value(digits, shift as int) && v <= MAX_MICROS,
                None => shifted_value(digits, shift as int) > MAX_MICROS,
            }
        }),
{
    if shift <= 0 {
        return Some(0);
    }
    let total: usize = at.n_int + at.n_frac;
    let take: usize = if shift < total as i128 {
        shift as usize
    } else {
        total
    };
    let take_int: usize = if take < at.n_int {
        take
    } else {
        at.n_int
    };
    let take_frac: usize = take - take_int;
    let ghost int_digits = t@.subrange(at.start as int, at.start + at.n_int);
    let ghost frac_digits = t@.subrange(at.frac_start as int, at.frac_start + at.n_frac);
    let ghost digits = int_digits + frac_digits;
    let ghost head_digits = t@.subrange(at.start as int, at.start + take_int);
    let ghost body_digits = t@.subrange(at.frac_start as int, at.frac_start + take_frac);
    proof {
        assert(digits.take(take as int) =~= head_digits + body_digits);
        assert forall|k: int| 0 <= k < head_digits.len() implies is_digit(
            #[trigger] head_digits[k],
        ) by {
            assert(head_digits[k] == int_digits[k]);
        }
        assert forall|k: int| 0 <= k < body_digits.len() implies is_digit(
            #[trigger] body_digits[k],
        ) by {
            assert(body_digits[k] == frac_digits[k]);
        }
        lemma_joined_split(0, head_digits, body_digits);
        lemma_joined_grows(joined(0, head_digits) as nat, body_digits);
        assert(0 * pow10(head_digits.len()) == 0);
        assert(0 * pow10((head_digits + body_digits).len()) == 0);
        if take == total {
            assert(digits.take(take as int) =~= digits);
            lemma_scale_up_monotonic(
                joined(0, digits) as nat,
                (shift - total) as nat,
                (shift - total) as nat,
            );
        }
    }
    let head: u64 = match append_digits(t, at.start, at.start + take_int, 0) {
        None => {
            return None;
        },
        Some(v) => v,
    };
    let body: u64 = match append_digits(t, at.frac_start, at.frac_start + take_frac, head) {
        None => {
            return None;
        },
        Some(v) => v,
    };
    if shift > total as i128 {
        append_zeros(body, (shift - total as i128) as u128)
    } else {
        proof {
            if shift == total as i128 {
                assert(pow10(0) == 1);
                assert(decimal_value(digits) * 1 == decimal_value(digits));
            }
        }
        Some(body)
    }
}

/// What the word `t` is worth as a timestamp, in microseconds; `None` where
/// it is no timestamp.
pub fn parse_micros(t: &[char]) -> (r: Option<i64>)
    ensures
        timestamp_micros(t@) == match r {
            Some(v) => Some(v as int),
            None => None::<int>,
        },
        r matches Some(v) ==> -MAX_MICROS <= v <= MAX_MICROS,
{
    let at: Layout = locate(t);
    if at.n_int == 0 && at.n_frac == 0 {
        return None;
    }
    let negative: bool = t.len() > 0 && t[0] == '-';
    let end: usize = at.frac_start + at.n_frac;
    let ghost u = unsigned_part(t@);
    let ghost digits = t@.subrange(at.start as int, at.start + at.n_int) + t@.subrange(
        at.frac_start as int,
        at.frac_start + at.n_frac,
    );
    proof {
        assert(u =~= t@.skip(at.start as int));
        assert(u.skip(mantissa_end(u) as int) =~= t@.skip(end as int));
        assert(mantissa_digits(u) =~= digits);
    }
    let e: i128 = match read_exponent(t, end) {
        None => {
            return None;
        },
        Some(e) => e,
    };
    proof {
        let int_digits = t@.subrange(at.start as int, at.start + at.n_int);
        let frac_digits = t@.subrange(at.frac_start as int, at.frac_start + at.n_frac);
        assert forall|k: int| 0 <= k < digits.len() implies is_digit(#[trigger] digits[k]) by {
            if k < at.n_int {
                assert(digits[k] == int_digits[k]);
            } else {
                assert(digits[k] == frac_digits[k - at.n_int]);
            }
        }
        lemma_scale_cases(
            digits,
            at.n_int as nat,
            e as int,
            exponent_value(t@.skip(end as int)).unwrap(),
        );
    }
    match read_shifted(t, &at, at.n_int as i128 + 6 + e) {
        None => None,
        Some(magnitude) => if negative {
            Some(-(magnitude as i64))
        } else {
            Some(magnitude as i64)
        },
    }
}

/// What the word `token` is worth as a timestamp, in microseconds; `None`
/// where it is no timestamp.
pub fn parse_timestamp(token: &str) -> (r: Option<i64>)
    ensures
        timestamp_micros(token@) == match r {
            Some(v) => Some(v as int),
            None => None::<int>,
        },
        r matches Some(v) ==> -MAX_MICROS <= v <= MAX_MICROS,
{
    let chars = crate::text::chars_of(token);
    parse_micros(chars.as_slice())
}

/// The sign with which a number is written: a minus for a negative number,
/// nothing for any other.
pub open spec fn sign_chars(v: int) -> Seq<char> {
    if v < 0 {
        seq!['-']
    } else {
        Seq::empty()
    }
}

/// How far `v` is from zero.
pub open spec fn magnitude(v: int) -> nat {
    if v < 0 {
        (-v) as nat
    } else {
        v as nat
    }
}

/// The timestamp `micros` written in seconds, as the engine reads it: the
/// sign, the whole seconds, a point and six digits for the microseconds.
pub open spec fn seconds_chars(micros: int) -> Seq<char> {
    sign_chars(micros) + decimal_digits(magnitude(micros) / (MICROS_PER_SECOND as nat)) + seq!['.']
        + fixed_decimal(magnitude(micros) % (MICROS_PER_SECOND as nat), 6)
}

/// The timestamp `micros` written in seconds, as the engine reads it.
pub fn seconds_text(micros: i64) -> (text: String)
    ensures
        text@ == seconds_chars(micros as int),
{
    let mut text = String::new();
    let size: u64 = if micros < 0 {
        text.append("-");
        (-(micros as i128)) as u64
    } else {
        micros as u64
    };
    proof {
        reveal_strlit("-");
        reveal_strlit(".");
        assert(text@ =~= sign_chars(micros as int));
    }
    push_decimal(&mut text, size / MICROS_PER_SECOND);
    text.append(".");
    push_fixed_decimal(&mut text, size % MICROS_PER_SECOND, 6);
    text
}

/// What [`seconds_text`] writes for a timestamp reads back, by
/// [`parse_timestamp`], as that timestamp.
pub proof fn law_seconds_text_reads_back(micros: int)
    requires
        -MAX_MICROS <= micros <= MAX_MICROS,
    ensures
        timestamp_micros(seconds_chars(micros)) == Some(micros),
{
    let size = magnitude(micros);
    let whole = decimal_digits(size / 1_000_000);
    let fraction = fixed_decimal(size % 1_000_000, 6);
    let token = seconds_chars(micros);
    assert(pow10(6) == 1_000_000) by {
        reveal_with_fuel(pow10, 7);
    }
    lemma_decimal_digits_value(size / 1_000_000);
    lemma_fixed_decimal_value(size % 1_000_000, 6);
    let u = whole + seq!['.'] + fraction;
    assert(is_digit(whole[0]));
    if micros < 0 {
        assert(token =~= seq!['-'] + u);
        assert(token[0] == '-');
        assert(token.skip(1) =~= u);
    } else {
        assert(token =~= u);
        assert(token[0] == whole[0]);
    }
    assert(unsigned_part(token) == u);
    assert(u =~= whole + (seq!['.'] + fraction));
    lemma_digit_run_stops(whole, seq!['.'] + fraction);
    assert(integer_len(u) == whole.len());
    assert(u[whole.len() as int] == '.');
    assert(u.skip(whole.len() as int + 1) =~= fraction);
    assert(fraction =~= fraction + Seq::<char>::empty());
    lemma_digit_run_stops(fraction, Seq::<char>::empty());
    assert(fraction_len(u) == 6);
    assert(u.skip(mantissa_end(u) as int) =~= Seq::<char>::empty());
    assert(mantissa_digits(u) =~= whole + fraction);
    lemma_decimal_value_concat(whole, fraction);
    assert(decimal_value(whole + fraction) == size);
    assert(pow10(0) == 1);
    assert(size * 1 == size);
}

} // verus!
