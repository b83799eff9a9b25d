//! Digits: what a string of them is worth, and how a number is written
//! out in them.

use vstd::prelude::*;
use vstd::arithmetic::div_mod::lemma_fundamental_div_mod_converse;

verus! {

/// The sixteen digits of base sixteen, in order of their worth; the first ten
/// are the digits of base ten.
pub open spec fn digit_chars() -> Seq<char> {
    "0123456789abcdef"@
}

/// The digit that is worth `d`.
pub open spec fn digit_char(d: int) -> char {
    digit_chars()[d]
}

/// `n` written in base ten, without leading zeros; 0 is written with one digit.
pub open spec fn decimal_digits(n: nat) -> Seq<char>
    decreases n,
{
    if n < 10 {
        seq![digit_char(n as int)]
    } else {
        decimal_digits(n / 10).push(digit_char((n % 10) as int))
    }
}

/// `n` written in base sixteen, without leading zeros; 0 is written with one
/// digit.
pub open spec fn hex_digits(n: nat) -> Seq<char>
    decreases n,
{
    if n < 16 {
        seq![digit_char(n as int)]
    } else {
        hex_digits(n / 16).push(digit_char((n % 16) as int))
    }
}

/// The last `width` digits of `n` written in base ten, with zeros in front
/// where `n` has fewer.
pub open spec fn fixed_decimal(n: nat, width: nat) -> Seq<char>
    decreases width,
{
    if width == 0 {
        Seq::empty()
    } else {
        fixed_decimal(n / 10, (width - 1) as nat).push(digit_char((n % 10) as int))
    }
}

/// `count` zeros.
pub open spec fn zeros(count: nat) -> Seq<char> {
    Seq::new(count, |i: int| '0')
}

/// `s` with as many zeros in front as it takes to make it `width` long.
pub open spec fn zero_padded(s: Seq<char>, width: nat) -> Seq<char> {
    if s.len() >= width {
        s
    } else {
        zeros((width - s.len()) as nat) + s
    }
}

/// What the digit `c` is worth; 0 for a character that is no digit.
pub open spec fn digit_worth(c: char) -> nat {
    if exists|d: int| 0 <= d < 16 && digit_char(d) == c {
        (choose|d: int| 0 <= d < 16 && digit_char(d) == c) as nat
    } else {
        0
    }
}

/// What a string of digits is worth in base sixteen, most significant digit
/// first.
pub open spec fn hex_value(s: Seq<char>) -> nat
    decreases s.len(),
{
    if s.len() == 0 {
        0
    } else {
        16 * hex_value(s.drop_last()) + digit_worth(s.last())
    }
}

/// Whether `c` is one of the ten ASCII digits.
pub open spec fn is_digit(c: char) -> bool {
    '0' <= c && c <= '9'
}

/// The number that the digit `c` stands for.
pub open spec fn digit_value(c: char) -> int {
    c as int - '0' as int
}

/// Whether `s` holds digits only.
pub open spec fn all_digits(s: Seq<char>) -> bool {
    forall|i: int| 0 <= i < s.len() ==> is_digit(#[trigger] s[i])
}

/// The number that the digit string `s` writes in base ten; 0 for the empty string.
pub open spec fn decimal_value(s: Seq<char>) -> int
    decreases s.len(),
{
    if s.len() == 0 {
        0
    } else {
        10 * decimal_value(s.drop_last()) + digit_value(s.last())
    }
}

/// Ten to the power `n`.
pub open spec fn pow10(n: nat) -> nat
    decreases n,
{
    if n == 0 {
        1
    } else {
        10 * pow10((n - 1) as nat)
    }
}

/// How many digits `s` begins with.
pub open spec fn digit_run(s: Seq<char>) -> nat
    decreases s.len(),
{
    if s.len() > 0 && is_digit(s[0]) {
        1 + digit_run(s.drop_first())
    } else {
        0
    }
}

/// Sixteen to the power `k`.
spec fn sixteen_to(k: nat) -> nat
    decreases k,
{
    if k == 0 {
        1
    } else {
        16 * sixteen_to((k - 1) as nat)
    }
}

/// The sixteen digits are sixteen different characters, and the first ten are
/// the ASCII digits in their order.
pub proof fn lemma_digit_worth(d: int)
    requires
        0 <= d < 16,
    ensures
        digit_worth(digit_char(d)) == d,
        d < 10 ==> digit_char(d) as int == '0' as int + d,
{
    reveal_strlit("0123456789abcdef");
    let c = digit_char(d);
    let e = choose|e: int| 0 <= e < 16 && digit_char(e) == c;
    assert(0 <= e < 16 && digit_char(e) == c);
}

/// Writing a number out in base sixteen and reading it back gives the number.
pub proof fn lemma_hex_value_of_digits(n: nat)
    ensures
        hex_value(hex_digits(n)) == n,
        hex_digits(n).len() >= 1,
    decreases n,
{
    if n < 16 {
        let s = seq![digit_char(n as int)];
        assert(s.drop_last() =~= Seq::<char>::empty());
        lemma_digit_worth(n as int);
        assert(hex_value(s) == n) by {
            reveal_with_fuel(hex_value, 2);
        }
    } else {
        let front = hex_digits(n / 16);
        let last = digit_char((n % 16) as int);
        lemma_hex_value_of_digits(n / 16);
        lemma_digit_worth((n % 16) as int);
        assert(front.push(last).drop_last() =~= front);
    }
}

/// Zeros are worth nothing.
proof fn lemma_hex_value_of_zeros(count: nat)
    ensures
        hex_value(zeros(count)) == 0,
    decreases count,
{
    if count > 0 {
        lemma_hex_value_of_zeros((count - 1) as nat);
        assert(zeros(count).drop_last() =~= zeros((count - 1) as nat));
        lemma_digit_worth(0);
        assert(zeros(count).last() == '0');
    }
}

/// Zeros in front of `s` leave its worth as it is.
proof fn lemma_hex_value_after_zeros(count: nat, s: Seq<char>)
    ensures
        hex_value(zeros(count) + s) == hex_value(s),
    decreases s.len(),
{
    let pad = zeros(count);
    if s.len() == 0 {
        assert(pad + s =~= pad);
        lemma_hex_value_of_zeros(count);
    } else {
        lemma_hex_value_after_zeros(count, s.drop_last());
        assert((pad + s).drop_last() =~= pad + s.drop_last());
        assert((pad + s).last() == s.last());
    }
}

/// Zeros in front do not change what digits are worth.
pub proof fn lemma_hex_value_of_padded(s: Seq<char>, width: nat)
    ensures
        hex_value(zero_padded(s, width)) == hex_value(s),
{
    if s.len() < width {
        lemma_hex_value_after_zeros((width - s.len()) as nat, s);
    }
}

/// Sixteen digits of base sixteen are enough for any `u64`.
proof fn lemma_digit_bound(k: nat)
    requires
        k == 16,
    ensures
        sixteen_to(k) > u64::MAX,
{
    reveal_with_fuel(sixteen_to, 17);
}

/// A power of ten is at least one.
pub proof fn lemma_pow10_positive(n: nat)
    ensures
        pow10(n) >= 1,
    decreases n,
{
    if n > 0 {
        lemma_pow10_positive((n - 1) as nat);
    }
}

/// Powers of ten multiply as their exponents add.
pub proof fn lemma_pow10_add(a: nat, b: nat)
    ensures
        pow10(a + b) == pow10(a) * pow10(b),
    decreases b,
{
    if b == 0 {
        assert(pow10(a) * 1 == pow10(a));
    } else {
        lemma_pow10_add(a, (b - 1) as nat);
        assert(pow10(a) * (10 * pow10((b - 1) as nat)) == 10 * (pow10(a) * pow10((b - 1) as nat)))
            by (nonlinear_arith);
    }
}

/// A larger exponent gives no smaller a power of ten.
pub proof fn lemma_pow10_monotonic(a: nat, b: nat)
    requires
        a <= b,
    ensures
        pow10(a) <= pow10(b),
    decreases b,
{
    if a < b {
        lemma_pow10_monotonic(a, (b - 1) as nat);
    }
}

/// A digit string of length `n` writes a number from 0 up to, but not
/// reaching, ten to the power `n`.
pub proof fn lemma_decimal_value_bound(s: Seq<char>)
    requires
        all_digits(s),
    ensures
        0 <= decimal_value(s) < pow10(s.len()),
    decreases s.len(),
{
    if s.len() > 0 {
        lemma_decimal_value_bound(s.drop_last());
        assert(is_digit(s.last()));
    }
}

/// Writing `b` after `a` shifts the value of `a` by the length of `b`.
pub proof fn lemma_decimal_value_concat(a: Seq<char>, b: Seq<char>)
    ensures
        decimal_value(a + b) == decimal_value(a) * pow10(b.len()) + decimal_value(b),
    decreases b.len(),
{
    if b.len() == 0 {
        assert(a + b =~= a);
        assert(pow10(0) == 1);
        assert(decimal_value(a) * 1 == decimal_value(a));
    } else {
        let front = b.drop_last();
        lemma_decimal_value_concat(a, front);
        assert((a + b).drop_last() =~= a + front);
        assert((a + b).last() == b.last());
        let p = pow10(front.len()) as int;
        let va = decimal_value(a);
        assert(pow10(b.len()) == 10 * p);
        assert(10 * (va * p) == va * (10 * p)) by (nonlinear_arith);
        assert(decimal_value(a + b) == 10 * decimal_value(a + front) + digit_value(b.last()));
        assert(decimal_value(b) == 10 * decimal_value(front) + digit_value(b.last()));
    }
}

/// Dropping the last `j` digits divides the value by ten to the power `j`.
pub proof fn lemma_decimal_value_prefix(s: Seq<char>, j: nat)
    requires
        all_digits(s),
        j <= s.len(),
    ensures
        decimal_value(s.take(s.len() - j)) == decimal_value(s) / (pow10(j) as int),
{
    let head = s.take(s.len() - j);
    let tail = s.skip(s.len() - j);
    assert(s =~= head + tail);
    lemma_decimal_value_concat(head, tail);
    lemma_decimal_value_bound(tail);
    lemma_pow10_positive(j);
    lemma_fundamental_div_mod_converse(
        decimal_value(s),
        pow10(j) as int,
        decimal_value(head),
        decimal_value(tail),
    );
}

/// A number written in base ten is a string of digits that is worth the
/// number.
pub proof fn lemma_decimal_digits_value(n: nat)
    ensures
        all_digits(decimal_digits(n)),
        decimal_digits(n).len() >= 1,
        decimal_value(decimal_digits(n)) == n,
    decreases n,
{
    let last = digit_char((n % 10) as int);
    lemma_digit_worth((n % 10) as int);
    assert(is_digit(last) && digit_value(last) == n % 10);
    if n < 10 {
        let s = seq![last];
        assert(s.drop_last() =~= Seq::<char>::empty());
        assert(decimal_value(s) == n) by {
            reveal_with_fuel(decimal_value, 2);
        }
    } else {
        let front = decimal_digits(n / 10);
        lemma_decimal_digits_value(n / 10);
        assert(front.push(last).drop_last() =~= front);
    }
}

/// A number written with a fixed count of digits is a string of that many
/// digits, worth the number where the number is small enough for them.
pub proof fn lemma_fixed_decimal_value(n: nat, width: nat)
    requires
        n < pow10(width),
    ensures
        all_digits(fixed_decimal(n, width)),
        fixed_decimal(n, width).len() == width,
        decimal_value(fixed_decimal(n, width)) == n,
    decreases width,
{
    if width > 0 {
        let last = digit_char((n % 10) as int);
        let front = fixed_decimal(n / 10, (width - 1) as nat);
        lemma_digit_worth((n % 10) as int);
        assert(is_digit(last) && digit_value(last) == n % 10);
        lemma_fixed_decimal_value(n / 10, (width - 1) as nat);
        assert(front.push(last).drop_last() =~= front);
    }
}

/// Digits run as far as the first character that is none.
pub proof fn lemma_digit_run_stops(digits: Seq<char>, rest: Seq<char>)
    requires
        all_digits(digits),
        rest.len() == 0 || !is_digit(rest[0]),
    ensures
        digit_run(digits + rest) == digits.len(),
    decreases digits.len(),
{
    let whole = digits + rest;
    if digits.len() == 0 {
        assert(whole =~= rest);
    } else {
        assert(whole[0] == digits[0]);
        assert(whole.drop_first() =~= digits.drop_first() + rest);
        let tail = digits.drop_first();
        assert forall|i: int| 0 <= i < tail.len() implies is_digit(#[trigger] tail[i]) by {
            assert(tail[i] == digits[i + 1]);
        }
        lemma_digit_run_stops(tail, rest);
    }
}

/// The digit that is worth `d`, as a string of its own.
fn digit_text(d: u8) -> (s: &'static str)
    requires
        d < 16,
    ensures
        s@ == seq![digit_char(d as int)],
{
    let all: &'static str = "0123456789abcdef";
    proof {
        reveal_strlit("0123456789abcdef");
    }
    let one = all.substring_char(d as usize, d as usize + 1);
    assert(one@ =~= seq![digit_char(d as int)]);
    one
}

/// Writes `n` in base ten at the end of `out`.
pub fn push_decimal(out: &mut String, n: u64)
    ensures
        final(out)@ == old(out)@ + decimal_digits(n as nat),
    decreases n,
{
    if n >= 10 {
        push_decimal(out, n / 10);
    }
    out.append(digit_text((n % 10) as u8));
    proof {
        let front = decimal_digits((n / 10) as nat);
        let last = digit_char((n % 10) as int);
        assert(old(out)@ + front + seq![last] =~= old(out)@ + front.push(last));
    }
}

/// Writes `n` in base sixteen at the end of `out`.
pub fn push_hex(out: &mut String, n: u64)
    ensures
        final(out)@ == old(out)@ + hex_digits(n as nat),
    decreases n,
{
    if n >= 16 {
        push_hex(out, n / 16);
    }
    out.append(digit_text((n % 16) as u8));
    proof {
        let front = hex_digits((n / 16) as nat);
        let last = digit_char((n % 16) as int);
        assert(old(out)@ + front + seq![last] =~= old(out)@ + front.push(last));
    }
}

/// How many digits `n` has in base sixteen.
pub fn hex_len(n: u64) -> (count: usize)
    ensures
        count == hex_digits(n as nat).len(),
        1 <= count <= 16,
{
    let mut count: usize = 1;
    let mut rest: u64 = n;
    let ghost mut bound: nat = 16;
    proof {
        lemma_digit_bound(16);
    }
    while rest >= 16
        invariant
            1 <= count,
            count + bound == 17,
            1 <= bound <= 16,
            rest < sixteen_to(bound),
            hex_digits(n as nat).len() == hex_digits(rest as nat).len() + count - 1,
        decreases rest,
    {
        proof {
            if bound == 1 {
                assert(sixteen_to(1) == 16) by {
                    reveal_with_fuel(sixteen_to, 2);
                }
            }
            bound = (bound - 1) as nat;
        }
        rest = rest / 16;
        count += 1;
    }
    count
}

/// Writes `count` zeros at the end of `out`.
pub fn push_zeros(out: &mut String, count: usize)
    ensures
        final(out)@ == old(out)@ + zeros(count as nat),
{
    let mut i: usize = 0;
    assert(out@ + zeros(0) =~= out@);
    while i < count
        invariant
            i <= count,
            out@ == old(out)@ + zeros(i as nat),
        decreases count - i,
    {
        out.append(digit_text(0));
        proof {
            lemma_digit_worth(0);
            assert(digit_char(0) == '0');
            assert(zeros(i as nat) + seq!['0'] =~= zeros((i + 1) as nat));
            assert(old(out)@ + zeros(i as nat) + seq!['0'] =~= old(out)@ + zeros((i + 1) as nat));
        }
        i += 1;
    }
}

/// Writes the last `width` decimal digits of `n` at the end of `out`.
pub fn push_fixed_decimal(out: &mut String, n: u64, width: usize)
    ensures
        final(out)@ == old(out)@ + fixed_decimal(n as nat, width as nat),
    decreases width,
{
    if width == 0 {
        assert(out@ + Seq::<char>::empty() =~= out@);
    } else {
        push_fixed_decimal(out, n / 10, width - 1);
        out.append(digit_text((n % 10) as u8));
        proof {
            let front = fixed_decimal((n / 10) as nat, (width - 1) as nat);
            let last = digit_char((n % 10) as int);
            assert(old(out)@ + front + seq![last] =~= old(out)@ + front.push(last));
        }
    }
}

/// Decides [`is_digit`].
pub fn is_ascii_digit(c: char) -> (b: bool)
    ensures
        b == is_digit(c),
{
    '0' <= c && c <= '9'
}

/// The number that the digit `c` stands for.
pub fn digit_of(c: char) -> (d: u8)
    requires
        is_digit(c),
    ensures
        d == digit_value(c),
        d <= 9,
{
    (c as u32 - '0' as u32) as u8
}

/// Counts the digits that `t` holds from `from` on, up to the first character
/// that is none.
pub fn count_digits(t: &[char], from: usize) -> (n: usize)
    requires
        from <= t.len(),
    ensures
        n == digit_run(t@.skip(from as int)),
        from + n <= t.len(),
        all_digits(t@.subrange(from as int, from + n)),
{
    let mut i: usize = from;
    while i < t.len() && is_ascii_digit(t[i])
        invariant
            from <= i <= t.len(),
            digit_run(t@.skip(from as int)) == (i - from) + digit_run(t@.skip(i as int)),
            all_digits(t@.subrange(from as int, i as int)),
        decreases t.len() - i,
    {
        proof {
            assert(t@.skip(i as int).drop_first() =~= t@.skip(i + 1));
            assert(t@.skip(i as int)[0] == t@[i as int]);
            let before = t@.subrange(from as int, i as int);
            let after = t@.subrange(from as int, i + 1);
            assert forall|k: int| 0 <= k < after.len() implies is_digit(#[trigger] after[k]) by {
                if k < before.len() {
                    assert(after[k] == before[k]);
                }
            }
        }
        i += 1;
    }
    proof {
        if i < t.len() {
            assert(t@.skip(i as int)[0] == t@[i as int]);
        }
    }
    i - from
}

} // verus!
