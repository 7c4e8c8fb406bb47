//! Numbers as text: decimal rendering and parsing, and memory amounts.
//!
//! An amount of memory is a whole number of *units*, a unit being a millionth of a MiB.
//! One unit is fine enough that every amount the tool records (GB to two decimals) or
//! reads from a command (MiB) is exact, so sums and comparisons of amounts are exact too.

use vstd::prelude::*;
use vstd::string::*;

use crate::text::{chars_of, is_digit, lower, same, text_between, to_lower};

verus! {

/// Units in a GB. A GB is 1024 MiB here, as it is in every sensor the tool reads.
pub const UNITS_PER_GB: i64 = 1_024_000_000;

// ---- rendering --------------------------------------------------------------------

/// The character for a digit below ten.
pub open spec fn digit_char(digit: nat) -> char {
    (('0' as u32) + digit) as char
}

/// `n` in decimal, without leading zeros.
pub open spec fn digits(n: nat) -> Seq<char>
    decreases n,
{
    if n < 10 {
        seq![digit_char(n)]
    } else {
        digits(n / 10).push(digit_char(n % 10))
    }
}

fn push_digit(text: &mut String, digit: u128)
    requires
        digit < 10,
    ensures
        final(text)@ == old(text)@.push(digit_char(digit as nat)),
{
    let code: u8 = 48 + digit as u8;
    text.push(code as char);
}

/// Append `n` in decimal.
pub fn push_number(text: &mut String, n: u128)
    ensures
        final(text)@ == old(text)@ + digits(n as nat),
    decreases n,
{
    if n >= 10 {
        push_number(text, n / 10);
    }
    push_digit(text, n % 10);
    proof {
        assert(text@ =~= old(text)@ + digits(n as nat));
    }
}

/// `n` in decimal.
pub fn number_text(n: u128) -> (text: String)
    ensures
        text@ == digits(n as nat),
{
    let mut text = String::new();
    push_number(&mut text, n);
    proof {
        assert(text@ =~= digits(n as nat));
    }
    text
}

pub fn count_text(n: usize) -> (text: String)
    ensures
        text@ == digits(n as nat),
{
    number_text(n as u128)
}

/// `numerator / denominator` to the nearest whole number, ties to the even one.
pub open spec fn nearest(numerator: nat, denominator: nat) -> nat {
    let whole = numerator / denominator;
    let rest = numerator % denominator;
    if 2 * rest > denominator || (2 * rest == denominator && whole % 2 == 1) {
        whole + 1
    } else {
        whole
    }
}

pub open spec fn magnitude(x: int) -> nat {
    if x < 0 {
        (-x) as nat
    } else {
        x as nat
    }
}

pub open spec fn sign_text(x: int) -> Seq<char> {
    if x < 0 {
        seq!['-']
    } else {
        Seq::empty()
    }
}

/// `n`, doubled until it is at least 2^52 times `d`: their quotient is then a whole number of
/// the steps in which a double of that size counts.
pub open spec fn in_steps(n: nat, d: nat) -> nat
    decreases 0x20_0000_0000_0000 * d - n,
{
    if n == 0 || n >= 0x10_0000_0000_0000 * d {
        n
    } else {
        in_steps(2 * n, d)
    }
}

/// Half-way between two decimals, a number is shown as the double that stands for it lies: the
/// quotient of `2 * below + 1` by `d`, which is half-way above `below`, is rounded up. Where
/// the double is the very number, the even decimal is shown.
pub open spec fn shown_above(below: nat, d: nat) -> bool {
    let steps = in_steps(2 * below + 1, d);
    let rest = steps % d;
    if rest == 0 {
        below % 2 == 1
    } else if 2 * rest == d {
        steps / d % 2 == 1
    } else {
        2 * rest > d
    }
}

/// An amount in so many parts of a GB, to the nearest, as a double of it is shown.
pub open spec fn parts_of_gb(size: nat, parts: nat) -> nat {
    let whole = size * parts / (UNITS_PER_GB as nat);
    let rest = size * parts % (UNITS_PER_GB as nat);
    if 2 * rest > UNITS_PER_GB || (2 * rest == UNITS_PER_GB && shown_above(whole, 2 * parts)) {
        whole + 1
    } else {
        whole
    }
}

/// An amount in GB with one decimal.
pub open spec fn gb1(units: int) -> Seq<char> {
    let tenths = parts_of_gb(magnitude(units), 10);
    (sign_text(units) + digits(tenths / 10)).push('.').push(digit_char(tenths % 10))
}

/// An amount in GB with two decimals.
pub open spec fn gb2(units: int) -> Seq<char> {
    let hundredths = parts_of_gb(magnitude(units), 100);
    (sign_text(units) + digits(hundredths / 100)).push('.').push(
        digit_char(hundredths / 10 % 10),
    ).push(digit_char(hundredths % 10))
}

fn magnitude_of(x: i128) -> (m: u128)
    ensures
        m == magnitude(x as int),
{
    if x < 0 {
        (-(x + 1)) as u128 + 1
    } else {
        x as u128
    }
}

/// A share of a whole in percent, without decimals.
pub open spec fn percent(part: int, whole: int) -> Seq<char> {
    sign_text(part) + digits(nearest(magnitude(part) * 100, whole as nat))
}

pub fn percent_text(part: i64, whole: i64) -> (text: String)
    requires
        whole > 0,
    ensures
        text@ == percent(part as int, whole as int),
{
    let mut text = signed(part as i128);
    let scaled: u128 = magnitude_of(part as i128) * 100;
    let base: u128 = whole as u128;
    let n: u128 = scaled / base;
    let left: u128 = scaled % base;
    if 2 * left > base || (2 * left == base && n % 2 == 1) {
        push_number(&mut text, n + 1);
    } else {
        push_number(&mut text, n);
    }
    text
}

fn is_shown_above(below: u128, d: u128) -> (r: bool)
    requires
        d == 20 || d == 200,
        below < 0x1000_0000_0000_0000_0000_0000_0000_0000,
    ensures
        r == shown_above(below as nat, d as nat),
{
    let mut steps: u128 = 2 * below + 1;
    while steps < 0x10_0000_0000_0000 * d
        invariant
            d == 20 || d == 200,
            0 < steps < 0x4000_0000_0000_0000_0000_0000_0000_0000,
            in_steps(steps as nat, d as nat) == in_steps((2 * below + 1) as nat, d as nat),
        decreases 0x20_0000_0000_0000 * d - steps,
    {
        steps = 2 * steps;
    }
    let rest: u128 = steps % d;
    if rest == 0 {
        below % 2 == 1
    } else if 2 * rest == d {
        steps / d % 2 == 1
    } else {
        2 * rest > d
    }
}

/// An amount in so many parts of a GB, to the nearest.
fn nearest_gb(size: u128, factor: u128) -> (n: u128)
    requires
        factor == 10 || factor == 100,
        size <= 0x8000_0000_0000_0000_0000_0000_0000_0000,
    ensures
        n == parts_of_gb(size as nat, factor as nat),
{
    let unit: u128 = 1_024_000_000;
    let whole: u128 = size / unit;
    let rest: u128 = size % unit;
    let scaled: u128 = rest * factor;
    let n: u128 = whole * factor + scaled / unit;
    let left: u128 = scaled % unit;
    proof {
        if factor == 10 {
            assert(n == (size * factor) / 1_024_000_000);
            assert(left == (size * factor) % 1_024_000_000);
        } else {
            assert(n == (size * factor) / 1_024_000_000);
            assert(left == (size * factor) % 1_024_000_000);
        }
    }
    if 2 * left > unit || (2 * left == unit && is_shown_above(n, 2 * factor)) {
        n + 1
    } else {
        n
    }
}

fn signed(x: i128) -> (text: String)
    ensures
        text@ == sign_text(x as int),
{
    let mut text = String::new();
    if x < 0 {
        text.push('-');
    }
    proof {
        assert(text@ =~= sign_text(x as int));
    }
    text
}

pub fn gb1_text(units: i128) -> (text: String)
    ensures
        text@ == gb1(units as int),
{
    let mut text = signed(units);
    let tenths: u128 = nearest_gb(magnitude_of(units), 10);
    push_number(&mut text, tenths / 10);
    text.push('.');
    push_digit(&mut text, tenths % 10);
    text
}

pub fn gb2_text(units: i128) -> (text: String)
    ensures
        text@ == gb2(units as int),
{
    let mut text = signed(units);
    let hundredths: u128 = nearest_gb(magnitude_of(units), 100);
    push_number(&mut text, hundredths / 100);
    text.push('.');
    push_digit(&mut text, hundredths / 10 % 10);
    push_digit(&mut text, hundredths % 10);
    text
}

// ---- parsing ----------------------------------------------------------------------

pub open spec fn all_digits(s: Seq<char>) -> bool {
    forall|i: int| 0 <= i < s.len() ==> is_digit(#[trigger] s[i])
}

/// The number that a run of digits writes.
pub open spec fn digits_value(s: Seq<char>) -> nat
    decreases s.len(),
{
    if s.len() == 0 {
        0
    } else {
        (10 * digits_value(s.drop_last()) + (s.last() as nat - '0' as nat)) as nat
    }
}

/// What follows a leading `+`, where there is one.
pub open spec fn past_plus(s: Seq<char>) -> Seq<char> {
    if s.len() > 0 && s[0] == '+' {
        s.skip(1)
    } else {
        s
    }
}

/// The unsigned number that `s` writes: digits, at least one, after at most one `+`,
/// and no larger than `most`.
pub open spec fn unsigned(s: Seq<char>, most: nat) -> Option<nat> {
    let body = past_plus(s);
    if body.len() > 0 && all_digits(body) && digits_value(body) <= most {
        Some(digits_value(body))
    } else {
        None
    }
}

proof fn lemma_value_grows(s: Seq<char>, length: int)
    requires
        all_digits(s),
        0 <= length <= s.len(),
    ensures
        digits_value(s.take(length)) <= digits_value(s),
    decreases s.len(),
{
    if length < s.len() {
        lemma_value_grows(s.drop_last(), length);
        assert(s.drop_last().take(length) =~= s.take(length));
    } else {
        assert(s.take(length) =~= s);
    }
}

pub fn parse_u64(text: &str) -> (r: Option<u64>)
    ensures
        match r {
            Some(n) => unsigned(text@, u64::MAX as nat) == Some(n as nat),
            None => unsigned(text@, u64::MAX as nat) is None,
        },
{
    let chars = chars_of(text);
    let start: usize = if chars.len() > 0 && chars[0] == '+' {
        1
    } else {
        0
    };
    let ghost body = past_plus(text@);
    if start == chars.len() {
        return None;
    }
    let mut value: u64 = 0;
    let mut at: usize = start;
    proof {
        assert(body.take(0) =~= Seq::<char>::empty());
    }
    while at < chars.len()
        invariant
            start <= 1,
            start <= at <= chars@.len(),
            body == chars@.skip(start as int),
            body == past_plus(text@),
            all_digits(body.take(at - start)),
            value == digits_value(body.take(at - start)),
        decreases chars@.len() - at,
    {
        let c = chars[at];
        proof {
            assert(body[at - start] == c);
            assert(body.take(at + 1 - start).drop_last() =~= body.take(at - start));
            assert(body.take(at + 1 - start).last() == c);
        }
        if c < '0' || c > '9' {
            return None;
        }
        let digit: u64 = (c as u64) - 48;
        proof {
            assert forall|i: int| 0 <= i < at + 1 - start implies is_digit(
                #[trigger] body.take(at + 1 - start)[i],
            ) by {
                if i < at - start {
                    assert(body.take(at - start)[i] == body[i]);
                }
            }
        }
        if value > u64::MAX / 10 || value * 10 > u64::MAX - digit {
            proof {
                if all_digits(body) {
                    lemma_value_grows(body, at + 1 - start);
                }
            }
            return None;
        }
        value = value * 10 + digit;
        at = at + 1;
    }
    proof {
        assert(body.take(at - start) =~= body);
    }
    Some(value)
}

/// Where the first of two marks stands in `s`, from a position on; its end if none does.
pub open spec fn mark_at(s: Seq<char>, a: char, b: char, from: nat) -> nat
    decreases s.len() - from,
{
    if from >= s.len() {
        s.len()
    } else if s[from as int] == a || s[from as int] == b {
        from
    } else {
        mark_at(s, a, b, from + 1)
    }
}

/// What stands before the first of two marks, and after it, where there is one.
pub open spec fn around_mark(s: Seq<char>, a: char, b: char) -> (Seq<char>, Option<Seq<char>>) {
    let at = mark_at(s, a, b, 0) as int;
    if at < s.len() {
        (s.take(at), Some(s.skip(at + 1)))
    } else {
        (s, None)
    }
}

/// What follows a leading sign, where there is one.
pub open spec fn past_sign(s: Seq<char>) -> Seq<char> {
    if s.len() > 0 && s[0] == '-' {
        s.skip(1)
    } else {
        past_plus(s)
    }
}

/// A size with the sign that `s` leads with.
pub open spec fn signed_as(s: Seq<char>, size: nat) -> int {
    if s.len() > 0 && s[0] == '-' {
        -size
    } else {
        size as int
    }
}

/// The power of ten that an exponent writes: digits, at least one, after at most one sign.
/// Without an exponent it is zero.
pub open spec fn power_of(exponent: Option<Seq<char>>) -> Option<int> {
    match exponent {
        Some(s) => if past_sign(s).len() > 0 && all_digits(past_sign(s)) {
            Some(signed_as(s, digits_value(past_sign(s))))
        } else {
            None
        },
        None => Some(0),
    }
}

/// So many zeros.
pub open spec fn zeros(count: nat) -> Seq<char> {
    Seq::new(count, |i: int| '0')
}

/// Digits moved to the left by so many places: zeros fill the places, and digits that are
/// moved past the last place, to the right, are dropped.
pub open spec fn moved(s: Seq<char>, places: int) -> Seq<char> {
    if places >= 0 {
        s + zeros(places as nat)
    } else if s.len() + places >= 0 {
        s.take(s.len() + places)
    } else {
        Seq::empty()
    }
}

/// The digits before and after the point, and the power of ten, of a number without its sign:
/// digits with at most one point among them, at least one digit, and at most one exponent.
pub open spec fn number_parts(body: Seq<char>) -> Option<(Seq<char>, Seq<char>, int)> {
    let (mantissa, exponent) = around_mark(body, 'e', 'E');
    let (whole, decimals) = around_mark(mantissa, '.', '.');
    let fraction = match decimals {
        Some(fraction) => fraction,
        None => Seq::empty(),
    };
    match power_of(exponent) {
        Some(power) => if whole.len() + fraction.len() > 0 && all_digits(whole) && all_digits(
            fraction,
        ) {
            Some((whole, fraction, power))
        } else {
            None
        },
        None => None,
    }
}

/// A number above every amount, in whatever unit the amount is written.
pub const MUCH: u128 = 1_000_000_000_000_000_000_000_000_000;

/// Infinity, in either of its spellings.
pub open spec fn is_infinite(body: Seq<char>) -> bool {
    lower(body) == "inf"@ || lower(body) == "infinity"@
}

/// The number that `s` writes after at most one sign, in millionths. Decimals past the sixth
/// are dropped, and infinity counts as `MUCH`.
pub open spec fn decimal(s: Seq<char>) -> Option<int> {
    if is_infinite(past_sign(s)) {
        Some(signed_as(s, MUCH as nat))
    } else {
        match number_parts(past_sign(s)) {
            Some((whole, fraction, power)) => Some(
                signed_as(s, digits_value(moved(whole + fraction, power + 6 - fraction.len()))),
            ),
            None => None,
        }
    }
}

/// The largest amount, where an exact one would not fit.
pub open spec fn clamped(units: int) -> int {
    if units > i64::MAX {
        i64::MAX as int
    } else if units < -i64::MAX {
        -i64::MAX
    } else {
        units
    }
}

/// The amount that a number of MiB writes.
pub open spec fn mib_amount(s: Seq<char>) -> Option<int> {
    match decimal(s) {
        Some(units) => Some(clamped(units)),
        None => None,
    }
}

proof fn lemma_mark_at(s: Seq<char>, a: char, b: char, from: nat)
    requires
        from <= s.len(),
    ensures
        ({
            let at = mark_at(s, a, b, from) as int;
            &&& from <= at <= s.len()
            &&& forall|i: int| from <= i < at ==> #[trigger] s[i] != a && s[i] != b
            &&& at < s.len() ==> s[at] == a || s[at] == b
        }),
    decreases s.len() - from,
{
    if from < s.len() && s[from as int] != a && s[from as int] != b {
        lemma_mark_at(s, a, b, from + 1);
    }
}

/// A value, or `most` where it is more.
pub open spec fn at_most(value: nat, most: nat) -> nat {
    if value < most {
        value
    } else {
        most
    }
}

/// The number that the first `count` digits write, or `most` where it is more.
fn bounded_value(chars: &[char], count: usize, most: u128) -> (value: u128)
    requires
        count <= chars@.len(),
        all_digits(chars@),
        most <= 0x1_0000_0000_0000_0000_0000_0000_0000,
    ensures
        value == at_most(digits_value(chars@.take(count as int)), most as nat),
{
    let mut value: u128 = 0;
    let mut at: usize = 0;
    while at < count
        invariant
            at <= count <= chars@.len(),
            all_digits(chars@),
            most <= 0x1_0000_0000_0000_0000_0000_0000_0000,
            value == at_most(digits_value(chars@.take(at as int)), most as nat),
        decreases count - at,
    {
        proof {
            assert(is_digit(chars@[at as int]));
            assert(chars@.take(at + 1).drop_last() =~= chars@.take(at as int));
        }
        let digit: u128 = (chars[at] as u128) - 48;
        let next: u128 = value * 10 + digit;
        value = if next < most {
            next
        } else {
            most
        };
        at = at + 1;
    }
    value
}

proof fn lemma_a_zero_more(s: Seq<char>, count: nat)
    ensures
        digits_value(s + zeros(count + 1)) == 10 * digits_value(s + zeros(count)),
{
    let longer = s + zeros(count + 1);
    assert(longer.drop_last() =~= s + zeros(count));
    assert(longer.last() == '0');
}

proof fn lemma_zeros_more(s: Seq<char>, count: nat, more: nat)
    ensures
        digits_value(s + zeros(count)) <= digits_value(s + zeros(count + more)),
        digits_value(s + zeros(count)) == 0 ==> digits_value(s + zeros(count + more)) == 0,
    decreases more,
{
    if more > 0 {
        lemma_zeros_more(s, count, (more - 1) as nat);
        lemma_a_zero_more(s, (count + more - 1) as nat);
    }
}

/// A power of ten above every one that makes a difference.
const FAR: u128 = 1_000_000_000_000_000_000_000_000_000_000;

/// The number that digits write once they are moved, or `MUCH` where it is more. From `FAR` on
/// it makes no difference how far they are moved.
fn moved_value(
    digits: &Vec<char>,
    negative: bool,
    power: u128,
    fraction: usize,
    Ghost(exact): Ghost<nat>,
) -> (value: u128)
    requires
        all_digits(digits@),
        fraction <= digits@.len(),
        power == at_most(exact, FAR as nat),
    ensures
        value == at_most(
            digits_value(
                moved(
                    digits@,
                    (if negative {
                        -exact
                    } else {
                        exact as int
                    }) + 6 - fraction,
                ),
            ),
            MUCH as nat,
        ),
{
    let ghost places: int = (if negative {
        -exact
    } else {
        exact as int
    }) + 6 - fraction;
    let by: i128 = (if negative {
        -(power as i128)
    } else {
        power as i128
    }) + 6 - fraction as i128;
    let length: usize = digits.len();
    if by < 0 {
        if (length as i128) + by > 0 {
            let kept: usize = ((length as i128) + by) as usize;
            return bounded_value(digits.as_slice(), kept, MUCH);
        }
        proof {
            assert(moved(digits@, places).len() == 0);
            assert(moved(digits@, places) =~= Seq::<char>::empty());
        }
        return 0;
    }
    let mut value: u128 = bounded_value(digits.as_slice(), length, MUCH);
    let mut done: i128 = 0;
    proof {
        assert(digits@.take(length as int) =~= digits@);
        assert(digits@ + zeros(0) =~= digits@);
    }
    while done < by && 0 < value && value < MUCH
        invariant
            0 <= done <= by,
            value == at_most(digits_value(digits@ + zeros(done as nat)), MUCH as nat),
            value == 0 || value == MUCH || value > done,
        decreases by - done,
    {
        proof {
            lemma_a_zero_more(digits@, done as nat);
        }
        value = if value * 10 < MUCH {
            value * 10
        } else {
            MUCH
        };
        done = done + 1;
    }
    proof {
        if value == 0 || value == MUCH {
            lemma_zeros_more(digits@, done as nat, (places - done) as nat);
        }
    }
    value
}

/// Where the run of digits that starts at `from` ends.
fn digit_run(chars: &Vec<char>, from: usize) -> (to: usize)
    requires
        from <= chars@.len(),
    ensures
        from <= to <= chars@.len(),
        all_digits(chars@.subrange(from as int, to as int)),
        to < chars@.len() ==> !is_digit(chars@[to as int]),
{
    let mut to: usize = from;
    while to < chars.len() && '0' <= chars[to] && chars[to] <= '9'
        invariant
            from <= to <= chars@.len(),
            all_digits(chars@.subrange(from as int, to as int)),
        decreases chars@.len() - to,
    {
        to = to + 1;
        proof {
            assert(chars@.subrange(from as int, to as int) =~= chars@.subrange(
                from as int,
                to - 1,
            ).push(chars@[to - 1]));
        }
    }
    to
}

/// Append the characters from one position up to another.
fn push_run(to: &mut Vec<char>, chars: &Vec<char>, from: usize, end: usize)
    requires
        from <= end <= chars@.len(),
    ensures
        final(to)@ == old(to)@ + chars@.subrange(from as int, end as int),
{
    let mut at: usize = from;
    let ghost before = to@;
    proof {
        assert(to@ =~= before + chars@.subrange(from as int, from as int));
    }
    while at < end
        invariant
            from <= at <= end <= chars@.len(),
            to@ == before + chars@.subrange(from as int, at as int),
        decreases end - at,
    {
        to.push(chars[at]);
        at = at + 1;
        proof {
            assert(to@ =~= before + chars@.subrange(from as int, at as int));
        }
    }
}

/// How a number divides, once its digits up to `point` and from `after` to `end` are known.
proof fn lemma_parts(body: Seq<char>, point: int, after: int, end: int)
    requires
        0 <= point <= after <= end <= body.len(),
        forall|i: int| 0 <= i < point ==> is_digit(#[trigger] body[i]),
        forall|i: int| after <= i < end ==> is_digit(#[trigger] body[i]),
        end < body.len() ==> !is_digit(body[end]),
        if after == point {
            end == point && (point < body.len() ==> body[point] != '.')
        } else {
            after == point + 1 && body[point] == '.'
        },
    ensures
        ({
            let (mantissa, exponent) = around_mark(body, 'e', 'E');
            let (whole, decimals) = around_mark(mantissa, '.', '.');
            let fraction = match decimals {
                Some(fraction) => fraction,
                None => Seq::empty(),
            };
            if end == body.len() || body[end] == 'e' || body[end] == 'E' {
                &&& exponent == if end < body.len() {
                    Some(body.skip(end + 1))
                } else {
                    None
                }
                &&& whole == body.take(point)
                &&& fraction == body.subrange(after, end)
            } else {
                !all_digits(whole) || !all_digits(fraction)
            }
        }),
{
    lemma_mark_at(body, 'e', 'E', 0);
    let stop = mark_at(body, 'e', 'E', 0) as int;
    assert(stop >= end) by {
        if stop < end {
            assert(is_digit(body[stop]) || body[stop] == '.');
        }
    }
    let mantissa = around_mark(body, 'e', 'E').0;
    assert(mantissa =~= body.take(stop));
    lemma_mark_at(mantissa, '.', '.', 0);
    let dot = mark_at(mantissa, '.', '.', 0) as int;
    assert(dot >= point) by {
        if dot < point {
            assert(is_digit(body[dot]));
        }
    }
    let (whole, decimals) = around_mark(mantissa, '.', '.');
    if end == body.len() || body[end] == 'e' || body[end] == 'E' {
        assert(stop == end);
        if after == point {
            assert(dot == mantissa.len());
            assert(whole =~= body.take(point));
            assert(body.subrange(after, end) =~= Seq::<char>::empty());
        } else {
            assert(mantissa[point] == '.');
            assert(dot == point);
            assert(whole =~= body.take(point));
            assert(decimals->0 =~= body.subrange(after, end));
        }
    } else {
        assert(stop > end);
        assert(mantissa[end] == body[end]);
        if after == point {
            assert(dot > end);
            assert(whole[end] == body[end]);
        } else {
            assert(mantissa[point] == '.');
            assert(dot == point);
            assert(decimals->0[end - after] == body[end]);
        }
    }
}

/// The power of ten that an exponent from `from` on writes, up to `FAR`, and whether it is
/// below zero.
fn parse_power(chars: &Vec<char>, from: usize) -> (r: Option<(bool, u128)>)
    requires
        from <= chars@.len(),
    ensures
        ({
            let tail = chars@.skip(from as int);
            match r {
                Some((negative, power)) => {
                    &&& power_of(Some(tail)) == Some(signed_as(tail, digits_value(past_sign(tail))))
                    &&& negative == (tail.len() > 0 && tail[0] == '-')
                    &&& power == at_most(digits_value(past_sign(tail)), FAR as nat)
                },
                None => power_of(Some(tail)) is None,
            }
        }),
{
    let length: usize = chars.len();
    let ghost tail = chars@.skip(from as int);
    let negative = from < length && chars[from] == '-';
    let start: usize = if from < length && (chars[from] == '-' || chars[from] == '+') {
        from + 1
    } else {
        from
    };
    proof {
        assert(past_sign(tail) =~= chars@.skip(start as int));
    }
    let end: usize = digit_run(chars, start);
    if end < length {
        proof {
            assert(past_sign(tail)[end - start] == chars@[end as int]);
        }
        return None;
    }
    if start == length {
        return None;
    }
    let mut digits: Vec<char> = Vec::new();
    push_run(&mut digits, chars, start, length);
    proof {
        assert(digits@ =~= past_sign(tail));
        assert(chars@.subrange(start as int, end as int) =~= past_sign(tail));
        assert(digits@.take(digits@.len() as int) =~= digits@);
    }
    let count: usize = digits.len();
    Some((negative, bounded_value(digits.as_slice(), count, FAR)))
}

/// A number divided into its parts.
struct Parts {
    digits: Vec<char>,
    /// How many of the digits stand after the point.
    fraction: usize,
    /// The power of ten is below zero.
    below: bool,
    /// Its size, up to `FAR`.
    power: u128,
    exact: Ghost<nat>,
}

impl Parts {
    spec fn of(&self, body: Seq<char>) -> bool {
        match number_parts(body) {
            Some((whole, fraction, power)) => {
                &&& self.digits@ == whole + fraction
                &&& all_digits(self.digits@)
                &&& self.fraction == fraction.len()
                &&& self.power == at_most(self.exact@, FAR as nat)
                &&& power == if self.below {
                    -self.exact@
                } else {
                    self.exact@ as int
                }
            },
            None => false,
        }
    }
}

fn parse_parts(chars: &Vec<char>, start: usize) -> (r: Option<Parts>)
    requires
        start <= chars@.len(),
    ensures
        match r {
            Some(parts) => parts.of(chars@.skip(start as int)),
            None => number_parts(chars@.skip(start as int)) is None,
        },
{
    let length: usize = chars.len();
    let ghost body = chars@.skip(start as int);
    let point: usize = digit_run(chars, start);
    let after: usize = if point < length && chars[point] == '.' {
        point + 1
    } else {
        point
    };
    let end: usize = if after > point {
        digit_run(chars, after)
    } else {
        point
    };
    proof {
        assert forall|i: int| 0 <= i < point - start implies is_digit(#[trigger] body[i]) by {
            assert(chars@.subrange(start as int, point as int)[i] == body[i]);
        }
        assert forall|i: int| after - start <= i < end - start implies is_digit(
            #[trigger] body[i],
        ) by {
            assert(chars@.subrange(after as int, end as int)[i - (after - start)] == body[i]);
        }
        lemma_parts(body, point - start, after - start, end - start);
    }
    let mut below = false;
    let mut power: u128 = 0;
    let ghost mut exact: nat = 0;
    if end < length {
        if chars[end] != 'e' && chars[end] != 'E' {
            return None;
        }
        proof {
            assert(body.skip(end + 1 - start) =~= chars@.skip(end + 1));
        }
        match parse_power(chars, end + 1) {
            Some((negative, size)) => {
                below = negative;
                power = size;
                proof {
                    exact = digits_value(past_sign(chars@.skip(end + 1)));
                }
            },
            None => {
                return None;
            },
        }
    }
    let mut digits: Vec<char> = Vec::new();
    push_run(&mut digits, chars, start, point);
    push_run(&mut digits, chars, after, end);
    proof {
        assert(chars@.subrange(start as int, point as int) =~= body.take(point - start));
        assert(chars@.subrange(after as int, end as int) =~= body.subrange(
            after - start,
            end - start,
        ));
        assert(digits@ =~= body.take(point - start) + body.subrange(after - start, end - start));
        assert(all_digits(digits@));
    }
    if digits.len() == 0 {
        return None;
    }
    Some(Parts { digits, fraction: end - after, below, power, exact: Ghost(exact) })
}

/// The number that a text writes, in millionths, up to `MUCH`.
pub fn parse_decimal(text: &str) -> (r: Option<i128>)
    ensures
        match r {
            Some(n) => decimal(text@) is Some && n == signed_as(
                text@,
                at_most(magnitude(decimal(text@)->0), MUCH as nat),
            ),
            None => decimal(text@) is None,
        },
{
    let chars = chars_of(text);
    let length: usize = chars.len();
    let negative = length > 0 && chars[0] == '-';
    let start: usize = if length > 0 && (chars[0] == '-' || chars[0] == '+') {
        1
    } else {
        0
    };
    proof {
        assert(chars@.skip(0) =~= chars@);
        assert(chars@.skip(start as int) == past_sign(text@));
        assert(chars@.subrange(start as int, length as int) =~= past_sign(text@));
    }
    let body = to_lower(text_between(chars.as_slice(), start, length).as_str());
    if same(body.as_str(), "inf") || same(body.as_str(), "infinity") {
        return Some(
            if negative {
                -(MUCH as i128)
            } else {
                MUCH as i128
            },
        );
    }
    match parse_parts(&chars, start) {
        Some(parts) => {
            let size: u128 = moved_value(
                &parts.digits,
                parts.below,
                parts.power,
                parts.fraction,
                parts.exact,
            );
            if negative {
                Some(-(size as i128))
            } else {
                Some(size as i128)
            }
        },
        None => None,
    }
}

pub fn parse_mib(text: &str) -> (r: Option<i64>)
    ensures
        match r {
            Some(units) => mib_amount(text@) == Some(units as int),
            None => mib_amount(text@) is None,
        },
{
    match parse_decimal(text) {
        Some(units) => Some(
            if units > i64::MAX as i128 {
                i64::MAX
            } else if units < -(i64::MAX as i128) {
                -i64::MAX
            } else {
                units as i64
            },
        ),
        None => None,
    }
}

// ---- reading back what was written --------------------------------------------------------

proof fn lemma_digit_char(d: nat)
    requires
        d < 10,
    ensures
        is_digit(digit_char(d)),
        digit_char(d) as nat - '0' as nat == d,
{
    assert(digit_char(d) as u32 == 48 + d);
}

/// A number that is written in digits is read back as itself.
pub proof fn law_digits_are_read_back(n: nat)
    ensures
        digits(n).len() > 0,
        all_digits(digits(n)),
        digits_value(digits(n)) == n,
    decreases n,
{
    if n < 10 {
        lemma_digit_char(n);
        let s = digits(n);
        assert(s.drop_last() =~= Seq::<char>::empty());
        assert(digits_value(s.drop_last()) == 0);
    } else {
        law_digits_are_read_back(n / 10);
        lemma_digit_char(n % 10);
        let s = digits(n);
        assert(s.drop_last() =~= digits(n / 10));
        assert forall|i: int| 0 <= i < s.len() implies is_digit(#[trigger] s[i]) by {
            if i < s.len() - 1 {
                assert(s[i] == digits(n / 10)[i]);
            }
        }
    }
}

/// Digits begin with no sign.
proof fn lemma_no_sign(s: Seq<char>)
    requires
        s.len() > 0,
        all_digits(s),
    ensures
        s[0] != '+',
        s[0] != '-',
        past_plus(s) == s,
        past_sign(s) == s,
{
    assert(is_digit(s[0]));
}

/// Every number up to the largest that is allowed is read in digits, with or without a plus, and
/// none above it.
pub proof fn law_numbers_are_read(n: nat, most: nat)
    ensures
        n <= most ==> unsigned(digits(n), most) == Some(n),
        n <= most ==> unsigned(seq!['+'] + digits(n), most) == Some(n),
        n > most ==> unsigned(digits(n), most) is None,
{
    law_digits_are_read_back(n);
    lemma_no_sign(digits(n));
    assert((seq!['+'] + digits(n)).skip(1) =~= digits(n));
}

/// What holds anything but digits is no number.
pub proof fn law_other_texts_are_no_numbers(s: Seq<char>, most: nat, i: int)
    requires
        0 < i < s.len(),
        !is_digit(s[i]),
    ensures
        unsigned(s, most) is None,
{
    let body = past_plus(s);
    if s[0] == '+' {
        assert(body[i - 1] == s[i]);
    } else {
        assert(body[i] == s[i]);
    }
}

/// A whole number of MiB is an amount of a million units each, as far as an amount goes; with a
/// minus it is as much below zero.
pub proof fn law_whole_mib_are_read(n: nat)
    requires
        n <= 9_000_000_000_000,
    ensures
        mib_amount(digits(n)) == Some((n * 1_000_000) as int),
        mib_amount(seq!['-'] + digits(n)) == Some(-((n * 1_000_000) as int)),
{
    let s = digits(n);
    law_digits_are_read_back(n);
    lemma_no_sign(s);
    lemma_whole_decimal(s);
    assert((seq!['-'] + s).skip(1) =~= s);
    reveal_strlit("inf");
    reveal_strlit("infinity");
    assert(lower(s)[0] == s[0]);
    assert(is_digit(s[0]));
    assert("inf"@[0] == 'i' && "infinity"@[0] == 'i');
    assert(!is_infinite(s));
    lemma_six_zeros(s);
}

proof fn lemma_whole_decimal(s: Seq<char>)
    requires
        s.len() > 0,
        all_digits(s),
    ensures
        number_parts(s) == Some((s, Seq::<char>::empty(), 0int)),
{
    lemma_mark_at(s, 'e', 'E', 0);
    lemma_mark_at(s, '.', '.', 0);
    let e = mark_at(s, 'e', 'E', 0) as int;
    let p = mark_at(s, '.', '.', 0) as int;
    if e < s.len() {
        assert(is_digit(s[e]));
    }
    if p < s.len() {
        assert(is_digit(s[p]));
    }
}

proof fn lemma_six_zeros(s: Seq<char>)
    ensures
        digits_value(moved(s, 6)) == digits_value(s) * 1_000_000,
        moved(s + Seq::<char>::empty(), 0 + 6 - 0) == moved(s, 6),
{
    assert(s + Seq::<char>::empty() =~= s);
    assert(s + zeros(0) =~= s);
    lemma_a_zero_more(s, 0);
    lemma_a_zero_more(s, 1);
    lemma_a_zero_more(s, 2);
    lemma_a_zero_more(s, 3);
    lemma_a_zero_more(s, 4);
    lemma_a_zero_more(s, 5);
}

/// An amount is shown in so many parts of a GB to within half of one.
pub proof fn law_amounts_are_shown_to_the_nearest_part(size: nat, parts: nat)
    requires
        parts == 10 || parts == 100,
    ensures
        2 * (parts_of_gb(size, parts) * 1_024_000_000) <= 2 * (size * parts) + 1_024_000_000,
        2 * (size * parts) <= 2 * (parts_of_gb(size, parts) * 1_024_000_000) + 1_024_000_000,
{
    let total = size * parts;
    assert(total == (total / 1_024_000_000) * 1_024_000_000 + total % 1_024_000_000);
}

/// A whole number of GB is shown as that number, with a zero for each decimal.
pub proof fn law_whole_gb_are_shown(n: nat)
    ensures
        gb1((n * 1_024_000_000) as int) == digits(n).push('.').push('0'),
        gb2((n * 1_024_000_000) as int) == digits(n).push('.').push('0').push('0'),
{
    let size = n * 1_024_000_000;
    assert(size * 10 == (n * 10) * 1_024_000_000);
    assert(size * 100 == (n * 100) * 1_024_000_000);
    assert((n * 10) * 1_024_000_000 / 1_024_000_000 == n * 10);
    assert((n * 100) * 1_024_000_000 / 1_024_000_000 == n * 100);
    assert((n * 10) * 1_024_000_000 % 1_024_000_000 == 0);
    assert((n * 100) * 1_024_000_000 % 1_024_000_000 == 0);
    assert(parts_of_gb(size, 10) == n * 10);
    assert(parts_of_gb(size, 100) == n * 100);
    assert(n * 10 / 10 == n && n * 10 % 10 == 0);
    assert(n * 100 / 100 == n && n * 100 / 10 % 10 == 0 && n * 100 % 10 == 0);
    assert(digit_char(0) == '0');
    assert(sign_text(size as int) + digits(n) =~= digits(n));
}

/// A whole number is a million millionths for each.
pub proof fn law_whole_decimals_are_read(n: nat)
    ensures
        decimal(digits(n)) == Some((n * 1_000_000) as int),
{
    let s = digits(n);
    law_digits_are_read_back(n);
    lemma_no_sign(s);
    lemma_whole_decimal(s);
    reveal_strlit("inf");
    reveal_strlit("infinity");
    assert(lower(s)[0] == s[0]);
    assert(is_digit(s[0]));
    assert("inf"@[0] == 'i' && "infinity"@[0] == 'i');
    assert(!is_infinite(s));
    lemma_six_zeros(s);
}

/// A ratio is rounded to within half.
pub proof fn law_the_nearest_whole_is_within_half(numerator: nat, denominator: nat)
    requires
        denominator > 0,
    ensures
        2 * (nearest(numerator, denominator) * denominator) <= 2 * numerator + denominator,
        2 * numerator <= 2 * (nearest(numerator, denominator) * denominator) + denominator,
{
    let whole = numerator / denominator;
    assert(numerator == whole * denominator + numerator % denominator) by (nonlinear_arith)
        requires
            denominator > 0,
            whole == numerator / denominator,
    ;
    assert((whole + 1) * denominator == whole * denominator + denominator) by (nonlinear_arith);
    assert(numerator % denominator < denominator) by (nonlinear_arith)
        requires
            denominator > 0,
    ;
}

/// A share of a hundred parts is shown as that many percent.
pub proof fn law_shares_of_a_hundred_are_percents(share: nat, part: nat)
    requires
        part > 0,
    ensures
        percent((share * part) as int, (100 * part) as int) == digits(share),
{
    let total = share * part * 100;
    let whole = 100 * part;
    assert(share * part >= 0) by (nonlinear_arith);
    assert(total == share * whole) by (nonlinear_arith)
        requires
            total == share * part * 100,
            whole == 100 * part,
    ;
    assert(total / whole == share && total % whole == 0) by (nonlinear_arith)
        requires
            total == share * whole,
            whole > 0,
    ;
    assert(magnitude((share * part) as int) == share * part);
    assert(sign_text((share * part) as int) + digits(share) =~= digits(share));
}

/// Tenths of a GB are shown as such with one decimal, and hundredths with two.
pub proof fn law_parts_of_a_gb_are_shown(n: nat)
    ensures
        gb1((n * 102_400_000) as int) == digits(n / 10).push('.').push(digit_char(n % 10)),
        gb2((n * 10_240_000) as int) == digits(n / 100).push('.').push(
            digit_char(n / 10 % 10),
        ).push(digit_char(n % 10)),
{
    let tenths = n * 102_400_000;
    let hundredths = n * 10_240_000;
    assert(tenths * 10 == n * 1_024_000_000);
    assert(hundredths * 100 == n * 1_024_000_000);
    assert(n * 1_024_000_000 / 1_024_000_000 == n);
    assert(n * 1_024_000_000 % 1_024_000_000 == 0);
    assert(parts_of_gb(tenths, 10) == n);
    assert(parts_of_gb(hundredths, 100) == n);
    assert(sign_text(tenths as int) + digits(n / 10) =~= digits(n / 10));
    assert(sign_text(hundredths as int) + digits(n / 100) =~= digits(n / 100));
}

/// An amount below zero is shown with a minus.
pub proof fn law_amounts_below_zero_have_a_minus(size: nat)
    requires
        size > 0,
    ensures
        gb1(-(size as int)) == seq!['-'] + gb1(size as int),
        gb2(-(size as int)) == seq!['-'] + gb2(size as int),
{
    let below = -(size as int);
    assert(magnitude(below) == magnitude(size as int));
    assert(gb1(below) =~= seq!['-'] + gb1(size as int));
    assert(gb2(below) =~= seq!['-'] + gb2(size as int));
}

/// A digit behind the point is a tenth.
pub proof fn law_tenths_are_read(n: nat, tenth: nat)
    requires
        tenth < 10,
    ensures
        decimal(digits(n).push('.').push(digit_char(tenth))) == Some(
            (n * 1_000_000 + tenth * 100_000) as int,
        ),
{
    let whole = digits(n);
    let fraction = seq![digit_char(tenth)];
    let s = whole.push('.').push(digit_char(tenth));
    law_digits_are_read_back(n);
    lemma_digit_char(tenth);
    assert(is_digit(whole[0]));
    assert(s[0] == whole[0]);
    assert(past_sign(s) == s);
    reveal_strlit("inf");
    reveal_strlit("infinity");
    assert(lower(s)[0] == s[0]);
    assert("inf"@[0] == 'i' && "infinity"@[0] == 'i');
    assert(!is_infinite(s));
    lemma_mark_at(s, 'e', 'E', 0);
    lemma_mark_at(s, '.', '.', 0);
    let e = mark_at(s, 'e', 'E', 0) as int;
    let p = mark_at(s, '.', '.', 0) as int;
    if e < whole.len() {
        assert(is_digit(whole[e]));
        assert(s[e] == whole[e]);
    }
    assert(e == s.len());
    if p < whole.len() {
        assert(is_digit(whole[p]));
        assert(s[p] == whole[p]);
    }
    assert(s[whole.len() as int] == '.');
    assert(p == whole.len());
    assert(s.take(p) =~= whole);
    assert(s.skip(p + 1) =~= fraction);
    assert(all_digits(fraction));
    assert(number_parts(s) == Some((whole, fraction, 0int)));
    let all = whole + fraction;
    assert(all.drop_last() =~= whole);
    assert(digits_value(all) == 10 * n + tenth);
    assert(all + zeros(0) =~= all);
    lemma_a_zero_more(all, 0);
    lemma_a_zero_more(all, 1);
    lemma_a_zero_more(all, 2);
    lemma_a_zero_more(all, 3);
    lemma_a_zero_more(all, 4);
}

} // verus!
