//! Amounts of money as texts: which texts are numbers, and which of them are above zero.

use crate::text;
use crate::text::{chars_of, digit, lower, same, text_of, value_of};
use vstd::prelude::*;

verus! {

// ───────── the grammar ─────────

/// The number of digits that stand in a row from `i` on.
pub open spec fn digit_run(b: Seq<char>, i: int) -> int
    decreases b.len() - i,
{
    if 0 <= i < b.len() && text::is_digit(b[i]) {
        1 + digit_run(b, i + 1)
    } else {
        0
    }
}

/// A point stands behind the digits at the front.
pub open spec fn has_point(b: Seq<char>) -> bool {
    digit_run(b, 0) < b.len() && b[digit_run(b, 0)] == '.'
}

/// The number of digits behind the point.
pub open spec fn fraction_len(b: Seq<char>) -> int {
    if has_point(b) {
        digit_run(b, digit_run(b, 0) + 1)
    } else {
        0
    }
}

/// Where the digits before and behind the point end.
pub open spec fn mantissa_end(b: Seq<char>) -> int {
    if has_point(b) {
        digit_run(b, 0) + 1 + fraction_len(b)
    } else {
        digit_run(b, 0)
    }
}

/// Where the digits of the exponent begin.
pub open spec fn exponent_start(b: Seq<char>) -> int {
    let j = mantissa_end(b) + 1;
    if 0 <= j < b.len() && text::is_sign(b[j]) {
        j + 1
    } else {
        j
    }
}

/// The text ends in an exponent: `e` in whatever case, a sign or none, and digits.
pub open spec fn has_exponent(b: Seq<char>) -> bool {
    let k = exponent_start(b);
    &&& mantissa_end(b) < b.len()
    &&& b[mantissa_end(b)] == 'e' || b[mantissa_end(b)] == 'E'
    &&& digit_run(b, k) > 0
    &&& k + digit_run(b, k) == b.len()
}

/// Digits with or without a point, at least one, and an exponent or none.
pub open spec fn is_decimal(b: Seq<char>) -> bool {
    &&& digit_run(b, 0) + fraction_len(b) > 0
    &&& mantissa_end(b) == b.len() || has_exponent(b)
}

/// The word for an infinite float.
pub open spec fn is_infinity(b: Seq<char>) -> bool {
    text::lowered(b) == "inf"@ || text::lowered(b) == "infinity"@
}

/// The word for a float that is no number.
pub open spec fn is_nan(b: Seq<char>) -> bool {
    text::lowered(b) == "nan"@
}

/// `str::parse` takes the text as a float.
pub open spec fn is_float(s: Seq<char>) -> bool {
    let b = text::unsigned(s);
    is_infinity(b) || is_nan(b) || is_decimal(b)
}

// ───────── what a decimal is worth ─────────

/// The digits before and behind the point.
pub open spec fn mantissa(b: Seq<char>) -> Seq<char> {
    if has_point(b) {
        b.subrange(0, digit_run(b, 0)) + b.subrange(digit_run(b, 0) + 1, mantissa_end(b))
    } else {
        b.subrange(0, digit_run(b, 0))
    }
}

/// The exponent, 0 where there is none.
pub open spec fn exponent(b: Seq<char>) -> int {
    if mantissa_end(b) == b.len() {
        0
    } else {
        let k = exponent_start(b);
        let n = text::nat_value(b.subrange(k, b.len() as int)) as int;
        if b[k - 1] == '-' {
            -n
        } else {
            n
        }
    }
}

/// `base` to the power of `n`.
pub open spec fn power(base: nat, n: nat) -> nat
    decreases n,
{
    if n == 0 {
        1
    } else {
        base * power(base, (n - 1) as nat)
    }
}

/// The float nearest to `digits` times 10 to the `scale` is above zero: the decimal is
/// greater than half of the least float above zero, which is 2 to the -1074.
pub open spec fn is_above_zero(digits: nat, scale: int) -> bool {
    if scale >= 0 {
        digits > 0
    } else {
        digits * power(2, 1075) > power(10, (-scale) as nat)
    }
}

/// The float that `str::parse` makes of the text is above zero.
pub open spec fn is_positive(s: Seq<char>) -> bool {
    let b = text::unsigned(s);
    &&& is_float(s)
    &&& !(s.len() > 0 && s[0] == '-')
    &&& is_infinity(b) || !is_nan(b) && is_above_zero(
        text::nat_value(mantissa(b)),
        exponent(b) - fraction_len(b),
    )
}

// ───────── reading ─────────

proof fn lemma_run(b: Seq<char>, i: int)
    requires
        0 <= i <= b.len(),
    ensures
        0 <= digit_run(b, i) <= b.len() - i,
        forall|j: int| i <= j < i + digit_run(b, i) ==> text::is_digit(#[trigger] b[j]),
        i + digit_run(b, i) < b.len() ==> !text::is_digit(b[i + digit_run(b, i)]),
    decreases b.len() - i,
{
    if i < b.len() && text::is_digit(b[i]) {
        lemma_run(b, i + 1);
    }
}

fn run_end(b: &Vec<char>, i: usize) -> (r: usize)
    requires
        i <= b@.len(),
    ensures
        r == i + digit_run(b@, i as int),
        i <= r <= b@.len(),
{
    let mut j: usize = i;
    while j < b.len() && digit(b[j])
        invariant
            i <= j <= b@.len(),
            i + digit_run(b@, i as int) == j + digit_run(b@, j as int),
        decreases b@.len() - j,
    {
        j = j + 1;
    }
    j
}

/// Where the parts of a decimal lie.
struct Parts {
    whole_end: usize,
    mantissa_end: usize,
    exponent_start: usize,
}

fn find_parts(b: &Vec<char>) -> (r: Option<Parts>)
    ensures
        match r {
            Some(p) => {
                &&& is_decimal(b@)
                &&& p.whole_end == digit_run(b@, 0)
                &&& p.mantissa_end == mantissa_end(b@)
                &&& p.mantissa_end <= b@.len()
                &&& p.mantissa_end < b@.len() ==> p.exponent_start == exponent_start(b@)
            },
            None => !is_decimal(b@),
        },
{
    let whole_end: usize = run_end(b, 0);
    let mut end: usize = whole_end;
    let mut digits: usize = whole_end;
    if whole_end < b.len() && b[whole_end] == '.' {
        end = run_end(b, whole_end + 1);
        digits = end - 1;
    }
    if digits == 0 {
        return None;
    }
    if end == b.len() {
        return Some(Parts { whole_end, mantissa_end: end, exponent_start: end });
    }
    if b[end] != 'e' && b[end] != 'E' {
        return None;
    }
    let mut start: usize = end + 1;
    if start < b.len() && (b[start] == '+' || b[start] == '-') {
        start = start + 1;
    }
    let stop: usize = run_end(b, start);
    if stop == start || stop < b.len() {
        return None;
    }
    Some(Parts { whole_end, mantissa_end: end, exponent_start: start })
}

/// The text without the sign in front of it.
fn body_of(s: &Vec<char>) -> (r: Vec<char>)
    ensures
        r@ == text::unsigned(s@),
{
    let mut i: usize = 0;
    if s.len() > 0 && (s[0] == '+' || s[0] == '-') {
        i = 1;
    }
    let t: String = text_of(s, i, s.len());
    assert(t@ =~= text::unsigned(s@));
    chars_of(t.as_str())
}

fn lowered_text(b: &Vec<char>) -> (r: String)
    ensures
        r@ == text::lowered(b@),
{
    let t: String = text_of(b, 0, b.len());
    assert(t@ =~= b@);
    let l: Vec<char> = lower(t.as_str());
    let r: String = text_of(&l, 0, l.len());
    assert(r@ =~= l@);
    r
}

/// Whether a text is a number, as `str::parse` reads floats.
pub fn is_number(s: &str) -> (r: bool)
    ensures
        r == is_float(s@),
{
    let b: Vec<char> = body_of(&chars_of(s));
    let word: String = lowered_text(&b);
    same(word.as_str(), "inf") || same(word.as_str(), "infinity") || same(word.as_str(), "nan")
        || find_parts(&b).is_some()
}

// ───────── weighing a decimal ─────────

/// The number that decimal digits stand for, the lowest first.
spec fn low_first(v: Seq<u8>) -> nat
    decreases v.len(),
{
    if v.len() == 0 {
        0
    } else {
        v[0] as nat + 10 * low_first(v.drop_first())
    }
}

spec fn are_digits(v: Seq<u8>) -> bool {
    forall|i: int| 0 <= i < v.len() ==> (#[trigger] v[i]) <= 9
}

proof fn lemma_high_digit(v: Seq<u8>, d: u8)
    ensures
        low_first(v.push(d)) == low_first(v) + power(10, v.len()) * d,
    decreases v.len(),
{
    if v.len() == 0 {
        assert(v.push(d).drop_first() =~= Seq::<u8>::empty());
        assert(low_first(v.push(d).drop_first()) == 0);
        let p = power(10, v.len());
        assert(p * d == d) by (nonlinear_arith)
            requires
                p == 1,
        ;
    } else {
        let w = v.drop_first();
        lemma_high_digit(w, d);
        assert(v.push(d).drop_first() =~= w.push(d));
        assert(low_first(v.push(d)) == v[0] + 10 * low_first(w.push(d)));
        let p = power(10, w.len());
        assert(power(10, v.len()) == 10 * p);
        assert(10 * (p * d) == (10 * p) * d) by (nonlinear_arith);
        assert(low_first(v) == v[0] + 10 * low_first(w));
    }
}

/// A number lies between the powers of ten that its digits span.
proof fn lemma_span(v: Seq<u8>)
    requires
        are_digits(v),
    ensures
        low_first(v) < power(10, v.len()),
        v.len() > 0 && v.last() > 0 ==> power(10, (v.len() - 1) as nat) <= low_first(v),
    decreases v.len(),
{
    if v.len() > 0 {
        let w = v.drop_last();
        lemma_span(w);
        lemma_high_digit(w, v.last());
        assert(w.push(v.last()) =~= v);
        let p = power(10, w.len());
        let d = v.last() as nat;
        assert(d <= 9 ==> p * d <= p * 9) by (nonlinear_arith);
        assert(d >= 1 ==> p <= p * d) by (nonlinear_arith);
    }
}

proof fn lemma_power_grows(base: nat, a: nat, b: nat)
    requires
        base >= 2,
        a <= b,
    ensures
        power(base, a) >= 1,
        power(base, a) <= power(base, b),
        a < b ==> power(base, a) < power(base, b),
    decreases b,
{
    if b > a {
        lemma_power_grows(base, a, (b - 1) as nat);
        let p = power(base, (b - 1) as nat);
        assert(base * p >= 2 * p) by (nonlinear_arith)
            requires
                base >= 2,
        ;
    } else if a > 0 {
        lemma_power_grows(base, (a - 1) as nat, (a - 1) as nat);
        let p = power(base, (a - 1) as nat);
        assert(base * p >= 2 * p) by (nonlinear_arith)
            requires
                base >= 2,
        ;
    }
}

proof fn lemma_double_step(p: nat, carry: nat, x: nat, rest: nat, d: nat, up: nat)
    requires
        carry + 2 * x == d + 10 * up,
    ensures
        p * (carry + 2 * (x + 10 * rest)) == p * d + (10 * p) * (up + 2 * rest),
{
    assert(carry + 2 * (x + 10 * rest) == d + 10 * (up + 2 * rest));
    assert(p * (d + 10 * (up + 2 * rest)) == p * d + (10 * p) * (up + 2 * rest))
        by (nonlinear_arith);
}

/// Twice a number.
fn doubled(v: &Vec<u8>) -> (r: Vec<u8>)
    requires
        are_digits(v@),
        v@.len() > 0,
        v@.last() > 0,
    ensures
        are_digits(r@),
        r@.len() > 0,
        r@.last() > 0,
        low_first(r@) == 2 * low_first(v@),
{
    let mut r: Vec<u8> = Vec::new();
    let mut carry: u8 = 0;
    let mut i: usize = 0;
    assert(v@.skip(0) =~= v@);
    assert(power(10, 0) * (carry + 2 * low_first(v@)) == 2 * low_first(v@)) by {
        assert(power(10, 0) == 1);
    }
    while i < v.len()
        invariant
            are_digits(v@),
            v@.len() > 0,
            v@.last() > 0,
            i <= v@.len(),
            r@.len() == i,
            are_digits(r@),
            carry <= 1,
            i == v@.len() ==> carry > 0 || r@.last() > 0,
            low_first(r@) + power(10, i as nat) * (carry + 2 * low_first(v@.skip(i as int))) == 2
                * low_first(v@),
        decreases v@.len() - i,
    {
        let x: u8 = v[i];
        let t: u8 = carry + 2 * x;
        let ghost rest = low_first(v@.skip(i + 1));
        proof {
            assert(v@.skip(i as int).drop_first() =~= v@.skip(i + 1));
            lemma_double_step(
                power(10, i as nat),
                carry as nat,
                x as nat,
                rest,
                (t % 10) as nat,
                (t / 10) as nat,
            );
            lemma_high_digit(r@, t % 10);
        }
        r.push(t % 10);
        carry = t / 10;
        i = i + 1;
    }
    assert(v@.skip(i as int) =~= Seq::<u8>::empty());
    if carry > 0 {
        proof {
            lemma_high_digit(r@, carry);
        }
        r.push(carry);
    } else {
        assert(power(10, i as nat) * 0 == 0);
    }
    r
}

/// Whether digits times 2 to the 1075 come to more than 10 to the `k`.
fn outweighs(digits: Vec<u8>, k: u128) -> (r: bool)
    requires
        are_digits(digits@),
        digits@.len() > 0,
        digits@.last() > 0,
        k > 0,
    ensures
        r == (low_first(digits@) * power(2, 1075) > power(10, k as nat)),
{
    let ghost d = low_first(digits@);
    let mut v: Vec<u8> = digits;
    let mut n: u32 = 0;
    proof {
        let p = power(2, 0);
        assert(d * p == d) by (nonlinear_arith)
            requires
                p == 1,
        ;
    }
    while n < 1075
        invariant
            n <= 1075,
            are_digits(v@),
            v@.len() > 0,
            v@.last() > 0,
            low_first(v@) == d * power(2, n as nat),
        decreases 1075 - n,
    {
        v = doubled(&v);
        n = n + 1;
        proof {
            let p = power(2, (n - 1) as nat);
            assert(2 * (d * p) == d * (2 * p)) by (nonlinear_arith);
        }
    }
    let top: usize = v.len() - 1;
    proof {
        lemma_span(v@);
    }
    if (top as u128) < k {
        proof {
            lemma_power_grows(10, v@.len(), k as nat);
        }
        return false;
    }
    if (top as u128) > k {
        proof {
            lemma_power_grows(10, k as nat, top as nat);
        }
        return true;
    }
    // As many digits as the power of ten has: it is that power, or more.
    let ghost low = v@.drop_last();
    let ghost p = power(10, top as nat);
    proof {
        lemma_high_digit(low, v@.last());
        assert(low.push(v@.last()) =~= v@);
    }
    if v[top] > 1 {
        proof {
            let t = v@.last() as nat;
            lemma_power_grows(10, top as nat, top as nat);
            assert(t >= 2 ==> p * t >= 2 * p) by (nonlinear_arith);
        }
        return true;
    }
    assert(p * 1 == p);
    let mut i: usize = 0;
    while i < top
        invariant
            top == v@.len() - 1,
            low == v@.drop_last(),
            i <= top,
            forall|j: int| 0 <= j < i ==> (#[trigger] low[j]) == 0,
            are_digits(v@),
            low_first(v@) == low_first(low) + p,
            p == power(10, k as nat),
            low_first(v@) == d * power(2, 1075),
            d == low_first(digits@),
        decreases top - i,
    {
        assert(low[i as int] == v@[i as int]);
        if v[i] != 0 {
            proof {
                lemma_not_zero(low, i as int);
            }
            return true;
        }
        i = i + 1;
    }
    proof {
        lemma_all_zero(low);
    }
    false
}

proof fn lemma_not_zero(v: Seq<u8>, i: int)
    requires
        0 <= i < v.len(),
        v[i] > 0,
    ensures
        low_first(v) > 0,
    decreases v.len(),
{
    if i > 0 {
        lemma_not_zero(v.drop_first(), i - 1);
    }
}

proof fn lemma_all_zero(v: Seq<u8>)
    requires
        forall|j: int| 0 <= j < v.len() ==> (#[trigger] v[j]) == 0,
    ensures
        low_first(v) == 0,
    decreases v.len(),
{
    if v.len() > 0 {
        assert forall|j: int| 0 <= j < v.drop_first().len() implies (#[trigger] v.drop_first()[j])
            == 0 by {
            assert(v[j + 1] == 0);
        }
        lemma_all_zero(v.drop_first());
    }
}

/// The digits of a text, the lowest first, without zeros at the high end.
fn weighed_digits(m: &Vec<char>) -> (r: Vec<u8>)
    requires
        text::all_digits(m@),
    ensures
        are_digits(r@),
        low_first(r@) == text::nat_value(m@),
        r@.len() > 0 ==> r@.last() > 0,
{
    let mut r: Vec<u8> = Vec::new();
    let mut i: usize = m.len();
    assert(m@.take(i as int) =~= m@);
    assert(power(10, 0) * text::nat_value(m@) == text::nat_value(m@)) by {
        assert(power(10, 0) == 1);
    }
    while i > 0
        invariant
            text::all_digits(m@),
            i <= m@.len(),
            r@.len() == m@.len() - i,
            are_digits(r@),
            low_first(r@) + power(10, r@.len()) * text::nat_value(m@.take(i as int))
                == text::nat_value(m@),
        decreases i,
    {
        i = i - 1;
        let x: u8 = value_of(m[i]);
        proof {
            lemma_high_digit(r@, x);
            assert(m@.take(i + 1).drop_last() =~= m@.take(i as int));
            let p = power(10, r@.len());
            let rest = text::nat_value(m@.take(i as int));
            assert(p * (rest * 10 + x) == p * x + (10 * p) * rest) by (nonlinear_arith);
        }
        r.push(x);
    }
    assert(m@.take(0) =~= Seq::<char>::empty());
    assert(power(10, r@.len()) * 0 == 0);
    while r.len() > 0 && r[r.len() - 1] == 0
        invariant
            are_digits(r@),
            low_first(r@) == text::nat_value(m@),
        decreases r@.len(),
    {
        proof {
            let w = r@.drop_last();
            lemma_high_digit(w, 0);
            assert(w.push(0) =~= r@);
            assert(power(10, w.len()) * 0 == 0);
        }
        r.pop();
    }
    r
}

/// A number that no vector's length reaches.
const FAR: u128 = 0x1_0000_0000_0000_0000_0000;

/// The number that the digits `from <= i < to` stand for, but no more than `FAR`.
fn capped_value(b: &Vec<char>, from: usize, to: usize) -> (r: u128)
    requires
        from <= to <= b@.len(),
        text::all_digits(b@.subrange(from as int, to as int)),
    ensures
        r <= FAR,
        r < FAR ==> r == text::nat_value(b@.subrange(from as int, to as int)),
        r == FAR ==> text::nat_value(b@.subrange(from as int, to as int)) >= FAR,
{
    let ghost s = b@.subrange(from as int, to as int);
    let mut n: u128 = 0;
    let mut i: usize = from;
    assert(s.take(0) =~= Seq::<char>::empty());
    while i < to
        invariant
            from <= i <= to <= b@.len(),
            s == b@.subrange(from as int, to as int),
            text::all_digits(s),
            n < FAR,
            n == text::nat_value(s.take(i - from)),
        decreases to - i,
    {
        assert(s[i - from] == b@[i as int]);
        let x: u8 = value_of(b[i]);
        n = n * 10 + x as u128;
        assert(s.take(i - from + 1).drop_last() =~= s.take(i - from));
        if n >= FAR {
            proof {
                text::lemma_nat_value_grows(s, i - from + 1);
            }
            return FAR;
        }
        i = i + 1;
    }
    assert(s.take(to - from) =~= s);
    n
}

/// Whether a text is a number above zero, as `str::parse` reads floats.
pub fn above_zero(s: &str) -> (r: bool)
    ensures
        r == is_positive(s@),
{
    let c: Vec<char> = chars_of(s);
    let b: Vec<char> = body_of(&c);
    let negative: bool = c.len() > 0 && c[0] == '-';
    if negative {
        return false;
    }
    let word: String = lowered_text(&b);
    if same(word.as_str(), "inf") || same(word.as_str(), "infinity") {
        return true;
    }
    if same(word.as_str(), "nan") {
        return false;
    }
    let p: Parts = match find_parts(&b) {
        Some(p) => p,
        None => {
            return false;
        },
    };
    proof {
        lemma_run(b@, 0);
        if has_point(b@) {
            lemma_run(b@, p.whole_end + 1);
        }
    }
    let mut m: String = text_of(&b, 0, p.whole_end);
    let mut fraction: usize = 0;
    if p.mantissa_end > p.whole_end {
        text::push_range(&mut m, &b, p.whole_end + 1, p.mantissa_end);
        fraction = p.mantissa_end - p.whole_end - 1;
    }
    assert(m@ =~= mantissa(b@));
    let digits: Vec<u8> = weighed_digits(&chars_of(m.as_str()));
    if digits.len() == 0 {
        assert(0 * power(2, 1075) == 0);
        return false;
    }
    proof {
        lemma_not_zero(digits@, digits@.len() - 1);
    }
    if p.mantissa_end == b.len() {
        return fraction == 0 || outweighs(digits, fraction as u128);
    }
    proof {
        lemma_run(b@, p.exponent_start as int);
    }
    let e: u128 = capped_value(&b, p.exponent_start, b.len());
    if b[p.exponent_start - 1] == '-' {
        if e == FAR {
            proof {
                let k = (fraction_len(b@) - exponent(b@)) as nat;
                lemma_far_below(digits@, k);
            }
            return false;
        }
        let k: u128 = fraction as u128 + e;
        k == 0 || outweighs(digits, k)
    } else {
        e >= fraction as u128 || outweighs(digits, fraction as u128 - e)
    }
}

/// A decimal whose exponent is that far below zero is nothing.
proof fn lemma_far_below(digits: Seq<u8>, k: nat)
    requires
        are_digits(digits),
        digits.len() <= usize::MAX,
        k >= FAR,
    ensures
        low_first(digits) * power(2, 1075) <= power(10, k),
{
    lemma_span(digits);
    lemma_power_product(digits.len(), 1075);
    lemma_power_grows(10, digits.len() + 1075, k);
    let d = low_first(digits);
    let p = power(10, digits.len());
    let q = power(2, 1075);
    let t = power(10, 1075);
    lemma_two_below_ten(1075);
    assert(d * q <= p * t) by (nonlinear_arith)
        requires
            d <= p,
            q <= t,
    ;
}

proof fn lemma_two_below_ten(n: nat)
    ensures
        power(2, n) <= power(10, n),
    decreases n,
{
    if n > 0 {
        lemma_two_below_ten((n - 1) as nat);
    }
}

proof fn lemma_power_product(a: nat, b: nat)
    ensures
        power(10, a) * power(10, b) == power(10, a + b),
    decreases b,
{
    if b == 0 {
        assert(power(10, a) * 1 == power(10, a));
    } else {
        lemma_power_product(a, (b - 1) as nat);
        let p = power(10, a);
        let q = power(10, (b - 1) as nat);
        assert(p * (10 * q) == 10 * (p * q)) by (nonlinear_arith);
    }
}

// ───────── what holds of amounts ─────────

proof fn lemma_run_to(b: Seq<char>, i: int, k: int)
    requires
        0 <= i <= k <= b.len(),
        forall|j: int| i <= j < k ==> text::is_digit(#[trigger] b[j]),
        k < b.len() ==> !text::is_digit(b[k]),
    ensures
        digit_run(b, i) == k - i,
    decreases k - i,
{
    if i < k {
        assert(text::is_digit(b[i]));
        lemma_run_to(b, i + 1, k);
    }
}

/// What begins with a digit or a point is no word for a float.
proof fn lemma_no_word(b: Seq<char>)
    requires
        b.len() > 0,
        text::is_digit(b[0]) || b[0] == '.',
    ensures
        !is_infinity(b),
        !is_nan(b),
{
    reveal_strlit("inf");
    reveal_strlit("infinity");
    reveal_strlit("nan");
    assert("inf"@[0] == 'i' && "infinity"@[0] == 'i' && "nan"@[0] == 'n');
    assert(text::lowered(b)[0] == b[0]);
}

/// A row of digits is a number, and above zero where what it stands for is.
pub proof fn law_digits_are_a_number(s: Seq<char>)
    requires
        text::all_digits(s),
        s.len() > 0,
    ensures
        is_float(s),
        is_positive(s) <==> text::nat_value(s) > 0,
{
    assert(text::is_digit(s[0]));
    lemma_run_to(s, 0, s.len() as int);
    lemma_no_word(s);
    assert(s.subrange(0, s.len() as int) =~= s);
}

/// Digits with a point before, among or behind them are a number, and above zero where the
/// digits stand for more than nothing. (Behind the point three hundred digits at most: far behind
/// it a decimal is too small for a float.)
pub proof fn law_decimals_are_numbers(a: Seq<char>, b: Seq<char>)
    requires
        text::all_digits(a),
        text::all_digits(b),
        a.len() + b.len() > 0,
        b.len() <= 300,
    ensures
        is_float(a + seq!['.'] + b),
        is_positive(a + seq!['.'] + b) <==> text::nat_value(a + b) > 0,
{
    let s = a + seq!['.'] + b;
    let n = a.len() as int;
    assert forall|j: int| 0 <= j < n implies text::is_digit(#[trigger] s[j]) by {
        assert(s[j] == a[j]);
    }
    assert forall|j: int| n + 1 <= j < s.len() implies text::is_digit(#[trigger] s[j]) by {
        assert(s[j] == b[j - n - 1]);
    }
    assert(s[n] == '.');
    lemma_run_to(s, 0, n);
    lemma_run_to(s, n + 1, s.len() as int);
    lemma_no_word(s);
    assert(text::unsigned(s) == s);
    assert(s.subrange(0, n) =~= a);
    assert(s.subrange(n + 1, s.len() as int) =~= b);
    assert(mantissa(s) == a + b);
    let d = text::nat_value(a + b);
    let k = b.len();
    if k > 0 {
        lemma_far_above(k);
        let p = power(2, 1075);
        let q = power(10, k);
        assert(d > 0 ==> d * p > q) by (nonlinear_arith)
            requires
                p > q,
                d >= 0,
        ;
        assert(0 * p == 0);
    }
}

proof fn lemma_three_places(i: nat)
    ensures
        power(10, i + 3) == 1000 * power(10, i),
{
    let p = power(10, i);
    assert(power(10, i + 1) == 10 * p);
    assert(power(10, i + 2) == 100 * p);
    assert(power(10, i + 3) == 1000 * p);
}

proof fn lemma_five_halvings(i: nat)
    ensures
        power(2, i + 5) == 32 * power(2, i),
{
    let q = power(2, i);
    assert(power(2, i + 1) == 2 * q);
    assert(power(2, i + 2) == 4 * q);
    assert(power(2, i + 3) == 8 * q);
    assert(power(2, i + 4) == 16 * q);
    assert(power(2, i + 5) == 32 * q);
}

/// Three places behind the point are less than ten halvings.
proof fn lemma_places_below_halvings(j: nat)
    ensures
        power(10, 3 * j) <= power(2, 10 * j),
    decreases j,
{
    if j > 0 {
        let i = (j - 1) as nat;
        lemma_places_below_halvings(i);
        lemma_three_places(3 * i);
        lemma_five_halvings(10 * i);
        lemma_five_halvings(10 * i + 5);
        assert(3 * i + 3 == 3 * j && 10 * i + 5 + 5 == 10 * j);
    }
}

proof fn lemma_far_above(k: nat)
    requires
        k <= 300,
    ensures
        power(2, 1075) > power(10, k),
{
    lemma_places_below_halvings(100);
    lemma_power_grows(10, k, 300);
    lemma_power_grows(2, 1001, 1075);
    assert(power(2, 1001) == 2 * power(2, 1000));
    lemma_power_grows(2, 0, 1000);
}

/// A sign in front makes a number of what is one without it, and of nothing else; with a minus
/// no amount is above zero, and a plus makes no difference.
pub proof fn law_sign_in_front(s: Seq<char>)
    requires
        s.len() > 0 ==> s[0] != '+' && s[0] != '-',
    ensures
        is_float(seq!['-'] + s) == is_float(s),
        is_float(seq!['+'] + s) == is_float(s),
        !is_positive(seq!['-'] + s),
        is_positive(seq!['+'] + s) == is_positive(s),
{
    assert((seq!['-'] + s).drop_first() =~= s);
    assert((seq!['+'] + s).drop_first() =~= s);
}

/// An exponent behind a whole number makes a number of it that is above zero where the whole
/// number is.
pub proof fn law_exponent_behind(a: Seq<char>, e: char, b: Seq<char>)
    requires
        text::all_digits(a),
        text::all_digits(b),
        a.len() > 0,
        b.len() > 0,
        e == 'e' || e == 'E',
    ensures
        is_float(a + seq![e] + b),
        is_positive(a + seq![e] + b) <==> text::nat_value(a) > 0,
{
    let s = a + seq![e] + b;
    let n = a.len() as int;
    assert forall|j: int| 0 <= j < n implies text::is_digit(#[trigger] s[j]) by {
        assert(s[j] == a[j]);
    }
    assert forall|j: int| n + 1 <= j < s.len() implies text::is_digit(#[trigger] s[j]) by {
        assert(s[j] == b[j - n - 1]);
    }
    assert(s[n] == e);
    assert(text::is_digit(s[n + 1]));
    lemma_run_to(s, 0, n);
    lemma_run_to(s, n + 1, s.len() as int);
    lemma_no_word(s);
    assert(text::unsigned(s) == s);
    assert(s.subrange(0, n) =~= a);
    assert(mantissa(s) == a);
}

proof fn lemma_with_minus(a: Seq<char>, b: Seq<char>)
    requires
        text::all_digits(a),
        text::all_digits(b),
        a.len() > 0,
        b.len() > 0,
    ensures
        is_float(a + seq!['e', '-'] + b),
        is_positive(a + seq!['e', '-'] + b) <==> is_above_zero(
            text::nat_value(a),
            -(text::nat_value(b) as int),
        ),
{
    let s = a + seq!['e', '-'] + b;
    let n = a.len() as int;
    assert forall|j: int| 0 <= j < n implies text::is_digit(#[trigger] s[j]) by {
        assert(s[j] == a[j]);
    }
    assert forall|j: int| n + 2 <= j < s.len() implies text::is_digit(#[trigger] s[j]) by {
        assert(s[j] == b[j - n - 2]);
    }
    assert(s[n] == 'e' && s[n + 1] == '-');
    lemma_run_to(s, 0, n);
    lemma_run_to(s, n + 2, s.len() as int);
    lemma_no_word(s);
    assert(text::unsigned(s) == s);
    assert(s.subrange(0, n) =~= a);
    assert(mantissa(s) == a);
    assert(s.subrange(n + 2, s.len() as int) =~= b);
    assert(exponent_start(s) == n + 2);
}

proof fn lemma_value_below(s: Seq<char>)
    requires
        text::all_digits(s),
    ensures
        text::nat_value(s) <= power(10, s.len()),
        s.len() > 0 ==> text::nat_value(s) + 1 <= power(10, s.len()),
    decreases s.len(),
{
    if s.len() > 0 {
        assert(text::all_digits(s.drop_last()));
        assert(text::is_digit(s.last()));
        lemma_value_below(s.drop_last());
        if s.len() == 1 {
            assert(text::nat_value(s.drop_last()) == 0);
            reveal_with_fuel(power, 2);
        }
    }
}

/// An exponent below zero leaves a number above zero above it, down to 10 to the -300, and makes
/// nothing of it where it lies so far below that no float is as small.
pub proof fn law_exponent_below_zero(a: Seq<char>, b: Seq<char>)
    requires
        text::all_digits(a),
        text::all_digits(b),
        a.len() > 0,
        b.len() > 0,
    ensures
        is_float(a + seq!['e', '-'] + b),
        text::nat_value(b) <= 300 ==> (is_positive(a + seq!['e', '-'] + b) <==> text::nat_value(a)
            > 0),
        text::nat_value(b) >= a.len() + 1075 ==> !is_positive(a + seq!['e', '-'] + b),
{
    lemma_with_minus(a, b);
    let d = text::nat_value(a);
    let k = text::nat_value(b);
    let p = power(2, 1075);
    let q = power(10, k);
    if 0 < k <= 300 {
        lemma_far_above(k);
        assert(d > 0 ==> d * p > q) by (nonlinear_arith)
            requires
                p > q,
                d >= 0,
        ;
        assert(0 * p == 0);
    }
    if k >= a.len() + 1075 {
        let x = power(10, a.len());
        let y = power(10, 1075);
        lemma_value_below(a);
        lemma_two_below_ten(1075);
        lemma_power_product(a.len(), 1075);
        lemma_power_grows(10, a.len() + 1075, k);
        assert(d * p <= x * y) by (nonlinear_arith)
            requires
                d <= x,
                p <= y,
        ;
    }
}

/// A number has something to it, and begins, behind a sign or none, with a digit, with a point
/// or with a letter of the words for infinity and for no number.
pub proof fn law_how_numbers_begin(s: Seq<char>)
    requires
        is_float(s),
    ensures
        s.len() > 0,
        s[0] != '+' && s[0] != '-' ==> text::is_digit(s[0]) || s[0] == '.' || s[0] == 'i' || s[0]
            == 'I' || s[0] == 'n' || s[0] == 'N',
        is_positive(s) ==> s[0] != '-',
{
    reveal_strlit("inf");
    reveal_strlit("infinity");
    reveal_strlit("nan");
    assert("inf"@.len() == 3 && "infinity"@.len() == 8 && "nan"@.len() == 3);
    assert("inf"@[0] == 'i' && "infinity"@[0] == 'i' && "nan"@[0] == 'n');
    let b = text::unsigned(s);
    if is_infinity(b) || is_nan(b) {
        assert(text::lowered(b).len() == b.len());
        assert(text::lowered(b)[0] == text::lower_char(b[0]));
    } else {
        lemma_run(b, 0);
    }
}

/// The words for infinity are a number above zero, and the word for no number is taken as a
/// number that is not, each in whatever case.
pub proof fn law_words_for_numbers(s: Seq<char>)
    ensures
        text::lowered(s) == "inf"@ || text::lowered(s) == "infinity"@ ==> is_float(s)
            && is_positive(s),
        text::lowered(s) == "nan"@ ==> is_float(s) && !is_positive(s),
{
    reveal_strlit("inf");
    reveal_strlit("infinity");
    reveal_strlit("nan");
    assert("inf"@.len() == 3 && "infinity"@.len() == 8 && "nan"@.len() == 3);
    assert("inf"@[0] == 'i' && "infinity"@[0] == 'i' && "nan"@[0] == 'n');
    if s.len() > 0 {
        assert(text::lowered(s)[0] == text::lower_char(s[0]));
    }
    assert(text::lowered(s).len() == s.len());
}

/// A number that is no word has digits in it, a point, a letter `e` and signs, and nothing else.
pub proof fn law_what_numbers_are_made_of(s: Seq<char>, i: int)
    requires
        is_float(s),
        !is_infinity(text::unsigned(s)),
        !is_nan(text::unsigned(s)),
        0 <= i < s.len(),
    ensures
        text::is_digit(s[i]) || s[i] == '.' || s[i] == 'e' || s[i] == 'E' || s[i] == '+' || s[i]
            == '-',
{
    let b = text::unsigned(s);
    let k = i - (s.len() - b.len());
    if k >= 0 {
        assert(b[k] == s[i]);
        lemma_run(b, 0);
        let n = digit_run(b, 0);
        if has_point(b) {
            lemma_run(b, n + 1);
        }
        let m = mantissa_end(b);
        if m < b.len() {
            lemma_run(b, exponent_start(b));
        }
    }
}

/// A second point, or a letter for an exponent without digits behind it, makes no number.
pub proof fn law_no_numbers(a: Seq<char>, b: Seq<char>, c: Seq<char>)
    requires
        text::all_digits(a),
        text::all_digits(b),
        a.len() > 0,
    ensures
        !is_float(a + seq!['.'] + b + seq!['.'] + c),
        !is_float(a + seq!['e']),
        !is_float(Seq::empty()),
        !is_float(seq!['.']),
{
    let s = a + seq!['.'] + b + seq!['.'] + c;
    let n = a.len() as int;
    let m = n + 1 + b.len();
    assert forall|j: int| 0 <= j < n implies text::is_digit(#[trigger] s[j]) by {
        assert(s[j] == a[j]);
    }
    assert forall|j: int| n + 1 <= j < m implies text::is_digit(#[trigger] s[j]) by {
        assert(s[j] == b[j - n - 1]);
    }
    assert(s[n] == '.' && s[m] == '.');
    lemma_run_to(s, 0, n);
    lemma_run_to(s, n + 1, m);
    lemma_no_word(s);
    let t = a + seq!['e'];
    assert forall|j: int| 0 <= j < n implies text::is_digit(#[trigger] t[j]) by {
        assert(t[j] == a[j]);
    }
    assert(t[n] == 'e');
    lemma_run_to(t, 0, n);
    lemma_no_word(t);
    let p = seq!['.'];
    lemma_run_to(p, 0, 0);
    lemma_run_to(p, 1, 1);
    lemma_no_word(p);
    let e = Seq::<char>::empty();
    reveal_strlit("inf");
    reveal_strlit("infinity");
    reveal_strlit("nan");
    assert("inf"@.len() == 3 && "infinity"@.len() == 8 && "nan"@.len() == 3);
    assert(text::lowered(e).len() == 0);
    assert(digit_run(e, 0) == 0);
}

}
