//! Text, read and written as sequences of characters.

use vstd::prelude::*;

verus! {

/// `String::push` of std: the character goes behind what the string holds.
pub assume_specification[ String::push ](s: &mut String, c: char)
    ensures
        final(s)@ == old(s)@.push(c),
;

// ───────── characters ─────────

/// An ASCII decimal digit.
pub open spec fn is_digit(c: char) -> bool {
    '0' <= c <= '9'
}

/// The number that a digit stands for.
pub open spec fn digit_value(c: char) -> nat {
    (c as int - '0' as int) as nat
}

/// The digit that stands for `0 <= n <= 9`.
pub open spec fn digit_char(n: nat) -> char {
    ('0' as int + n) as char
}

/// `char::to_ascii_lowercase`.
pub open spec fn lower_char(c: char) -> char {
    if 'A' <= c <= 'Z' {
        (c as int + 32) as char
    } else {
        c
    }
}

/// Unicode's `White_Space` property, by which `str::trim` goes.
pub open spec fn is_space(c: char) -> bool {
    ||| 0x09 <= c as int <= 0x0d
    ||| c as int == 0x20
    ||| c as int == 0x85
    ||| c as int == 0xa0
    ||| c as int == 0x1680
    ||| 0x2000 <= c as int <= 0x200a
    ||| c as int == 0x2028
    ||| c as int == 0x2029
    ||| c as int == 0x202f
    ||| c as int == 0x205f
    ||| c as int == 0x3000
}

/// Whether a character is a decimal digit.
pub fn digit(c: char) -> (r: bool)
    ensures
        r == is_digit(c),
{
    '0' <= c && c <= '9'
}

/// Whether a character is white space.
pub fn space(c: char) -> (r: bool)
    ensures
        r == is_space(c),
{
    let n: u32 = c as u32;
    (0x09 <= n && n <= 0x0d) || n == 0x20 || n == 0x85 || n == 0xa0 || n == 0x1680 || (0x2000 <= n
        && n <= 0x200a) || n == 0x2028 || n == 0x2029 || n == 0x202f || n == 0x205f || n == 0x3000
}

/// The digit character of `0 <= n <= 9`.
pub fn digit_of(n: u8) -> (r: char)
    requires
        n <= 9,
    ensures
        r == digit_char(n as nat),
{
    (48 + n) as char
}

/// The number of a digit character.
pub fn value_of(c: char) -> (r: u8)
    requires
        is_digit(c),
    ensures
        r == digit_value(c),
        r <= 9,
{
    (c as u32 - '0' as u32) as u8
}

/// A character with an ASCII capital made small.
pub fn lower_of(c: char) -> (r: char)
    ensures
        r == lower_char(c),
{
    if 'A' <= c && c <= 'Z' {
        (c as u8 + 32) as char
    } else {
        c
    }
}

// ───────── between texts and vectors of characters ─────────

/// The characters of a text.
pub fn chars_of(s: &str) -> (r: Vec<char>)
    ensures
        r@ == s@,
{
    let mut r: Vec<char> = Vec::new();
    for c in it: s.chars()
        invariant
            it.seq() == s@,
            r@ == s@.take(it.index() as int),
    {
        r.push(c);
        assert(r@ =~= s@.take(it.index() + 1));
    }
    assert(r@ =~= s@);
    r
}

/// Puts the characters `from <= i < to` of `s` behind what `out` holds.
pub fn push_range(out: &mut String, s: &Vec<char>, from: usize, to: usize)
    requires
        from <= to <= s@.len(),
    ensures
        final(out)@ == old(out)@ + s@.subrange(from as int, to as int),
{
    let ghost before = out@;
    let mut i: usize = from;
    assert(out@ =~= before + s@.subrange(from as int, i as int));
    while i < to
        invariant
            from <= i <= to <= s@.len(),
            out@ == before + s@.subrange(from as int, i as int),
        decreases to - i,
    {
        out.push(s[i]);
        assert(s@.subrange(from as int, i + 1) =~= s@.subrange(from as int, i as int).push(
            s@[i as int],
        ));
        i = i + 1;
    }
}

/// Puts a text behind what `out` holds.
pub fn push_text(out: &mut String, s: &str)
    ensures
        final(out)@ == old(out)@ + s@,
{
    let x: Vec<char> = chars_of(s);
    push_range(out, &x, 0, x.len());
    assert(x@.subrange(0, x@.len() as int) =~= s@);
}

/// The text of the characters `from <= i < to` of `s`.
pub fn text_of(s: &Vec<char>, from: usize, to: usize) -> (r: String)
    requires
        from <= to <= s@.len(),
    ensures
        r@ == s@.subrange(from as int, to as int),
{
    let mut r: String = String::new();
    push_range(&mut r, s, from, to);
    assert(r@ =~= s@.subrange(from as int, to as int));
    r
}

/// Whether two texts are the same.
pub fn same(a: &str, b: &str) -> (r: bool)
    ensures
        r == (a@ == b@),
{
    let x: Vec<char> = chars_of(a);
    let y: Vec<char> = chars_of(b);
    if x.len() != y.len() {
        return false;
    }
    let mut i: usize = 0;
    while i < x.len()
        invariant
            x@ == a@,
            y@ == b@,
            x@.len() == y@.len(),
            i <= x@.len(),
            forall|j: int| 0 <= j < i ==> x@[j] == y@[j],
        decreases x@.len() - i,
    {
        if x[i] != y[i] {
            assert(a@[i as int] != b@[i as int]);
            return false;
        }
        i = i + 1;
    }
    assert(a@ =~= b@);
    true
}

// ───────── case, search, trimming ─────────

/// `str::to_ascii_lowercase`.
pub open spec fn lowered(s: Seq<char>) -> Seq<char> {
    s.map_values(|c: char| lower_char(c))
}

/// `needle` stands in `hay` at `i`.
pub open spec fn occurs_at(hay: Seq<char>, needle: Seq<char>, i: int) -> bool {
    &&& 0 <= i <= hay.len() - needle.len()
    &&& hay.subrange(i, i + needle.len()) == needle
}

/// `needle` stands somewhere in `hay`.
pub open spec fn occurs(hay: Seq<char>, needle: Seq<char>) -> bool {
    exists|i: int| occurs_at(hay, needle, i)
}

/// The characters of a text, ASCII capitals made small.
pub fn lower(s: &str) -> (r: Vec<char>)
    ensures
        r@ == lowered(s@),
{
    let x: Vec<char> = chars_of(s);
    let mut r: Vec<char> = Vec::new();
    let mut i: usize = 0;
    while i < x.len()
        invariant
            x@ == s@,
            i <= x@.len(),
            r@ == lowered(s@).take(i as int),
        decreases x@.len() - i,
    {
        r.push(lower_of(x[i]));
        i = i + 1;
        assert(r@ =~= lowered(s@).take(i as int));
    }
    assert(r@ =~= lowered(s@));
    r
}

/// Whether `needle` stands in `hay` at `i`.
pub fn stands_at(hay: &Vec<char>, needle: &Vec<char>, i: usize) -> (r: bool)
    ensures
        r == occurs_at(hay@, needle@, i as int),
{
    if needle.len() > hay.len() || i > hay.len() - needle.len() {
        return false;
    }
    let mut j: usize = 0;
    while j < needle.len()
        invariant
            i + needle.len() <= hay.len(),
            j <= needle.len(),
            forall|k: int| 0 <= k < j ==> hay@[i + k] == needle@[k],
        decreases needle@.len() - j,
    {
        if hay[i + j] != needle[j] {
            assert(hay@.subrange(i as int, i + needle@.len())[j as int] != needle@[j as int]);
            return false;
        }
        j = j + 1;
    }
    assert(hay@.subrange(i as int, i + needle@.len()) =~= needle@);
    true
}

/// Where `needle` stands first in `hay`.
pub fn find(hay: &Vec<char>, needle: &str) -> (r: Option<usize>)
    ensures
        match r {
            Some(i) => occurs_at(hay@, needle@, i as int) && forall|j: int|
                j < i ==> !occurs_at(hay@, needle@, j),
            None => !occurs(hay@, needle@),
        },
{
    let n: Vec<char> = chars_of(needle);
    if n.len() > hay.len() {
        return None;
    }
    let last: usize = hay.len() - n.len();
    let mut i: usize = 0;
    loop
        invariant
            n@ == needle@,
            n@.len() <= hay@.len(),
            last == hay@.len() - n@.len(),
            i <= last,
            forall|j: int| j < i ==> !occurs_at(hay@, needle@, j),
        decreases last - i,
    {
        if stands_at(hay, &n, i) {
            return Some(i);
        }
        if i == last {
            return None;
        }
        i = i + 1;
    }
}

/// Whether `needle` stands somewhere in `hay`.
pub fn contains(hay: &Vec<char>, needle: &str) -> (r: bool)
    ensures
        r == occurs(hay@, needle@),
{
    find(hay, needle).is_some()
}

/// Whether `s` begins with `prefix`.
pub fn starts_with(s: &str, prefix: &str) -> (r: bool)
    ensures
        r == occurs_at(s@, prefix@, 0),
{
    let x: Vec<char> = chars_of(s);
    let n: Vec<char> = chars_of(prefix);
    stands_at(&x, &n, 0)
}

/// A text without the white space at its front.
pub open spec fn trimmed_front(s: Seq<char>) -> Seq<char>
    decreases s.len(),
{
    if s.len() > 0 && is_space(s[0]) {
        trimmed_front(s.drop_first())
    } else {
        s
    }
}

/// A text without the white space at its back.
pub open spec fn trimmed_back(s: Seq<char>) -> Seq<char>
    decreases s.len(),
{
    if s.len() > 0 && is_space(s.last()) {
        trimmed_back(s.drop_last())
    } else {
        s
    }
}

/// `str::trim`.
pub open spec fn trimmed(s: Seq<char>) -> Seq<char> {
    trimmed_back(trimmed_front(s))
}

/// A text without the white space at its two ends.
pub fn trim(s: &str) -> (r: String)
    ensures
        r@ == trimmed(s@),
{
    let x: Vec<char> = chars_of(s);
    let mut a: usize = 0;
    assert(x@.subrange(0, x@.len() as int) =~= x@);
    while a < x.len() && space(x[a])
        invariant
            x@ == s@,
            a <= x@.len(),
            trimmed_front(x@) == trimmed_front(x@.subrange(a as int, x@.len() as int)),
        decreases x@.len() - a,
    {
        assert(x@.subrange(a as int, x@.len() as int).drop_first() =~= x@.subrange(
            a + 1,
            x@.len() as int,
        ));
        a = a + 1;
    }
    let mut b: usize = x.len();
    assert(trimmed_front(x@) == x@.subrange(a as int, b as int));
    while a < b && space(x[b - 1])
        invariant
            a <= b <= x@.len(),
            trimmed(x@) == trimmed_back(x@.subrange(a as int, b as int)),
        decreases b,
    {
        assert(x@.subrange(a as int, b as int).drop_last() =~= x@.subrange(a as int, b - 1));
        b = b - 1;
    }
    text_of(&x, a, b)
}

// ───────── whole numbers ─────────

/// Every character is a digit.
pub open spec fn all_digits(s: Seq<char>) -> bool {
    forall|i: int| 0 <= i < s.len() ==> is_digit(#[trigger] s[i])
}

/// The number that a row of digits stands for.
pub open spec fn nat_value(s: Seq<char>) -> nat
    decreases s.len(),
{
    if s.len() == 0 {
        0
    } else {
        nat_value(s.drop_last()) * 10 + digit_value(s.last())
    }
}

/// A sign in front of a number.
pub open spec fn is_sign(c: char) -> bool {
    c == '+' || c == '-'
}

/// A text without the sign in front of it.
pub open spec fn unsigned(s: Seq<char>) -> Seq<char> {
    if s.len() > 0 && is_sign(s[0]) {
        s.drop_first()
    } else {
        s
    }
}

/// What `str::parse` makes of a text as an `i64`: a sign or none, then digits, at least
/// one, and a number that an `i64` can hold.
pub open spec fn int_value(s: Seq<char>) -> Option<i64> {
    let body = unsigned(s);
    let n = if s.len() > 0 && s[0] == '-' {
        -(nat_value(body) as int)
    } else {
        nat_value(body) as int
    };
    if body.len() > 0 && all_digits(body) && i64::MIN <= n <= i64::MAX {
        Some(n as i64)
    } else {
        None
    }
}

/// More digits make no smaller number.
pub proof fn lemma_nat_value_grows(s: Seq<char>, k: int)
    requires
        0 <= k <= s.len(),
    ensures
        nat_value(s.take(k)) <= nat_value(s),
    decreases s.len(),
{
    if k == s.len() {
        assert(s.take(k) =~= s);
    } else {
        assert(s.drop_last().take(k) =~= s.take(k));
        lemma_nat_value_grows(s.drop_last(), k);
    }
}

/// The `i64` that the characters `from <= i < to` of `s` stand for.
pub fn parse_int(s: &Vec<char>, from: usize, to: usize) -> (r: Option<i64>)
    requires
        from <= to <= s@.len(),
    ensures
        r == int_value(s@.subrange(from as int, to as int)),
{
    let ghost t = s@.subrange(from as int, to as int);
    let ghost body = unsigned(t);
    let mut i: usize = from;
    let mut negative: bool = false;
    if from < to && (s[from] == '+' || s[from] == '-') {
        negative = s[from] == '-';
        i = from + 1;
    }
    assert(body =~= s@.subrange(i as int, to as int));
    if i == to {
        return None;
    }
    let ghost first = i;
    let mut n: i128 = 0;
    assert(body.take(0) =~= Seq::<char>::empty());
    while i < to
        invariant
            from <= first <= i <= to <= s@.len(),
            body == s@.subrange(first as int, to as int),
            n == nat_value(body.take(i - first)),
            0 <= n <= 0x8000_0000_0000_0000,
            forall|j: int| 0 <= j < i - first ==> is_digit(#[trigger] body[j]),
            t == s@.subrange(from as int, to as int),
            body == unsigned(t),
            negative == (t.len() > 0 && t[0] == '-'),
        decreases to - i,
    {
        let c: char = s[i];
        assert(body[i - first] == c);
        if !digit(c) {
            return None;
        }
        n = n * 10 + value_of(c) as i128;
        assert(body.take(i - first + 1).drop_last() =~= body.take(i - first));
        if n > 0x8000_0000_0000_0000 {
            proof {
                lemma_nat_value_grows(body, i - first + 1);
            }
            return None;
        }
        i = i + 1;
    }
    assert(body.take(to - first) =~= body);
    if negative {
        Some((-n) as i64)
    } else if n <= i64::MAX as i128 {
        Some(n as i64)
    } else {
        None
    }
}

/// A number in decimal digits.
pub open spec fn nat_text(n: nat) -> Seq<char>
    decreases n,
{
    if n < 10 {
        seq![digit_char(n)]
    } else {
        nat_text(n / 10).push(digit_char(n % 10))
    }
}

/// A number in decimal digits, with `-` in front of a negative one.
pub open spec fn int_text(n: int) -> Seq<char> {
    if n < 0 {
        seq!['-'] + nat_text((-n) as nat)
    } else {
        nat_text(n as nat)
    }
}

/// `n` zeros.
pub open spec fn zeros(n: int) -> Seq<char> {
    Seq::new(
        if n > 0 {
            n as nat
        } else {
            0
        },
        |i: int| '0',
    )
}

/// A number in at least `width` characters, filled up with zeros behind the sign: what
/// `format!` makes of it with the width in the form `04`.
pub open spec fn padded_text(n: int, width: int) -> Seq<char> {
    if n < 0 {
        let t = nat_text((-n) as nat);
        seq!['-'] + zeros(width - 1 - t.len()) + t
    } else {
        let t = nat_text(n as nat);
        zeros(width - t.len()) + t
    }
}

/// The digits of a number.
pub fn digits_of(n: u64) -> (r: Vec<char>)
    ensures
        r@ == nat_text(n as nat),
        r@.len() >= 1,
{
    let mut back: Vec<char> = Vec::new();
    let mut rest: u64 = n;
    assert(nat_text(n as nat) =~= nat_text(rest as nat) + back@.reverse());
    while rest >= 10
        invariant
            nat_text(n as nat) == nat_text(rest as nat) + back@.reverse(),
        decreases rest,
    {
        let d: u8 = (rest % 10) as u8;
        let ghost whole = nat_text(rest as nat);
        let ghost was = back@;
        back.push(digit_of(d));
        rest = rest / 10;
        proof {
            assert(whole + was.reverse() =~= nat_text(rest as nat) + back@.reverse());
        }
    }
    back.push(digit_of(rest as u8));
    assert(nat_text(n as nat) =~= back@.reverse());
    let mut r: Vec<char> = Vec::new();
    let mut i: usize = back.len();
    while i > 0
        invariant
            i <= back@.len(),
            r@ == back@.reverse().take(back@.len() - i),
        decreases i,
    {
        i = i - 1;
        r.push(back[i]);
        assert(r@ =~= back@.reverse().take(back@.len() - i));
    }
    assert(r@ =~= back@.reverse());
    r
}

/// The digits of a row of zeros and a number are digits, and stand for the number.
pub proof fn lemma_nat_text(n: nat, k: int)
    ensures
        nat_text(n).len() >= 1,
        all_digits(zeros(k) + nat_text(n)),
        nat_value(zeros(k) + nat_text(n)) == n,
    decreases n,
{
    let z = zeros(k);
    if n < 10 {
        lemma_zeros(k);
        assert((z + nat_text(n)).drop_last() =~= z);
    } else {
        lemma_nat_text(n / 10, k);
        let t = z + nat_text(n / 10);
        assert(z + nat_text(n) =~= t.push(digit_char(n % 10)));
        assert(t.push(digit_char(n % 10)).drop_last() =~= t);
    }
}

proof fn lemma_zeros(k: int)
    ensures
        nat_value(zeros(k)) == 0,
    decreases k,
{
    if k > 0 {
        assert(zeros(k).drop_last() =~= zeros(k - 1));
        lemma_zeros(k - 1);
    }
}

/// Puts a number in decimal digits behind what `out` holds.
pub fn push_int(out: &mut String, n: i64)
    ensures
        final(out)@ == old(out)@ + int_text(n as int),
{
    push_padded(out, n, 0);
    assert(zeros(0 - nat_text(n as nat).len()) =~= Seq::<char>::empty());
    assert(zeros(0 - 1 - nat_text((-n) as nat).len()) =~= Seq::<char>::empty());
    assert(out@ =~= old(out)@ + int_text(n as int));
}

/// A number in decimal digits.
pub fn int_string(n: i64) -> (r: String)
    ensures
        r@ == int_text(n as int),
{
    let mut r: String = String::new();
    push_int(&mut r, n);
    assert(r@ =~= int_text(n as int));
    r
}

/// Puts a number behind what `out` holds, in at least `width` characters.
pub fn push_padded(out: &mut String, n: i64, width: usize)
    ensures
        final(out)@ == old(out)@ + padded_text(n as int, width as int),
{
    let ghost before = out@;
    let mut used: usize = 0;
    let size: u64 = if n < 0 {
        out.push('-');
        used = 1;
        (-(n as i128)) as u64
    } else {
        n as u64
    };
    let digits: Vec<char> = digits_of(size);
    let ghost lead = out@;
    let ghost fill = width - used - digits@.len();
    assert(out@ =~= lead + zeros(0));
    let mut k: usize = 0;
    while used < width && k < width - used && digits.len() < width - used - k
        invariant
            used <= 1,
            fill == width - used - digits@.len(),
            k == 0 || k <= fill,
            out@ == lead + zeros(k as int),
        decreases width - k,
    {
        out.push('0');
        k = k + 1;
        assert(zeros(k as int) =~= zeros(k - 1).push('0'));
    }
    assert(zeros(k as int) =~= zeros(fill));
    push_range(out, &digits, 0, digits.len());
    assert(digits@.subrange(0, digits@.len() as int) =~= digits@);
    assert(out@ =~= before + padded_text(n as int, width as int));
}

// ───────── what holds of texts ─────────

/// Lowering changes the capitals from `A` to `Z`, each to its small letter, and nothing else.
pub proof fn law_lowered(s: Seq<char>, i: int)
    requires
        0 <= i < s.len(),
    ensures
        lowered(s).len() == s.len(),
        0x41 <= s[i] as int <= 0x5a ==> lowered(s)[i] as int == s[i] as int + 32,
        !(0x41 <= s[i] as int <= 0x5a) ==> lowered(s)[i] == s[i],
{
}

/// A text stands at a position where each of its characters is the one that stands there.
pub proof fn law_stands_by_characters(hay: Seq<char>, needle: Seq<char>, i: int)
    ensures
        occurs_at(hay, needle, i) <==> 0 <= i && i + needle.len() <= hay.len() && forall|k: int|
            0 <= k < needle.len() ==> #[trigger] needle[k] == hay[i + k],
{
    if occurs_at(hay, needle, i) {
        let part = hay.subrange(i, i + needle.len());
        assert forall|k: int| 0 <= k < needle.len() implies #[trigger] needle[k] == hay[i + k] by {
            assert(part[k] == hay[i + k]);
        }
    }
    if 0 <= i && i + needle.len() <= hay.len() && forall|k: int|
        0 <= k < needle.len() ==> #[trigger] needle[k] == hay[i + k] {
        assert(hay.subrange(i, i + needle.len()) =~= needle);
    }
}

/// A text stands in another where that one is it with something or nothing before and behind it.
pub proof fn law_stands_between(hay: Seq<char>, needle: Seq<char>)
    ensures
        occurs(hay, needle) <==> exists|front: Seq<char>, back: Seq<char>|
            hay == #[trigger] (front + needle + back),
{
    if occurs(hay, needle) {
        let i = choose|i: int| occurs_at(hay, needle, i);
        let front = hay.take(i);
        let back = hay.skip(i + needle.len());
        assert(hay =~= front + needle + back);
    }
    if exists|front: Seq<char>, back: Seq<char>| hay == #[trigger] (front + needle + back) {
        let (front, back) = choose|front: Seq<char>, back: Seq<char>|
            hay == #[trigger] (front + needle + back);
        let i = front.len() as int;
        assert(hay.subrange(i, i + needle.len()) =~= needle);
        assert(occurs_at(hay, needle, i));
    }
}

/// Of the ASCII characters the blank and those from the tab to the carriage return are white
/// space; the widest character that is, is the ideographic blank.
pub proof fn law_white_space(c: char)
    ensures
        (c as int) < 0x80 ==> (is_space(c) <==> c as int == 0x20 || 0x09 <= c as int <= 0x0d),
        is_space(c) ==> c as int <= 0x3000,
        c as int == 0x3000 || c as int == 0xa0 ==> is_space(c),
{
}

proof fn lemma_trimmed_front(s: Seq<char>) -> (a: int)
    ensures
        0 <= a <= s.len(),
        trimmed_front(s) == s.subrange(a, s.len() as int),
        forall|k: int| 0 <= k < a ==> is_space(#[trigger] s[k]),
        a < s.len() ==> !is_space(s[a]),
    decreases s.len(),
{
    if s.len() > 0 && is_space(s[0]) {
        let rest = s.drop_first();
        let a = lemma_trimmed_front(rest);
        assert(rest.subrange(a, rest.len() as int) =~= s.subrange(a + 1, s.len() as int));
        assert forall|k: int| 0 <= k < a + 1 implies is_space(#[trigger] s[k]) by {
            if k > 0 {
                assert(rest[k - 1] == s[k]);
            }
        }
        if a < rest.len() {
            assert(rest[a] == s[a + 1]);
        }
        a + 1
    } else {
        assert(s.subrange(0, s.len() as int) =~= s);
        0
    }
}

proof fn lemma_trimmed_back(s: Seq<char>) -> (b: int)
    ensures
        0 <= b <= s.len(),
        trimmed_back(s) == s.subrange(0, b),
        forall|k: int| b <= k < s.len() ==> is_space(#[trigger] s[k]),
        b > 0 ==> !is_space(s[b - 1]),
    decreases s.len(),
{
    if s.len() > 0 && is_space(s.last()) {
        let rest = s.drop_last();
        let b = lemma_trimmed_back(rest);
        assert(rest.subrange(0, b) =~= s.subrange(0, b));
        assert forall|k: int| b <= k < s.len() implies is_space(#[trigger] s[k]) by {
            if k < rest.len() {
                assert(rest[k] == s[k]);
            }
        }
        b
    } else {
        assert(s.subrange(0, s.len() as int) =~= s);
        s.len() as int
    }
}

/// A trimmed text is the text without white space that stood before it and behind it; it neither
/// begins nor ends with any.
pub proof fn law_only_ends_trimmed(s: Seq<char>)
    ensures
        exists|a: int, b: int|
            {
                &&& 0 <= a <= b <= s.len()
                &&& trimmed(s) == #[trigger] s.subrange(a, b)
                &&& forall|k: int| 0 <= k < a ==> is_space(#[trigger] s[k])
                &&& forall|k: int| b <= k < s.len() ==> is_space(#[trigger] s[k])
            },
        trimmed(s).len() > 0 ==> !is_space(trimmed(s)[0]) && !is_space(trimmed(s).last()),
{
    let a = lemma_trimmed_front(s);
    let t = trimmed_front(s);
    let b = lemma_trimmed_back(t);
    assert(t.subrange(0, b) =~= s.subrange(a, a + b));
    assert forall|k: int| a + b <= k < s.len() implies is_space(#[trigger] s[k]) by {
        assert(t[k - a] == s[k]);
    }
    if b > 0 {
        assert(t.subrange(0, b)[0] == t[0] && t[0] == s[a]);
        assert(t.subrange(0, b).last() == t[b - 1]);
    }
    assert(trimmed(s) == s.subrange(a, a + b));
}

/// Digits count by their places: one more digit behind a number makes it ten times as much and
/// as much more as the digit stands for.
pub proof fn law_digits_by_place(s: Seq<char>, c: char)
    requires
        0x30 <= c as int <= 0x39,
    ensures
        is_digit(c),
        nat_value(Seq::empty()) == 0,
        nat_value(s.push(c)) == 10 * nat_value(s) + (c as int - 0x30),
{
    assert(s.push(c).drop_last() =~= s);
}

/// A number that is written down is read back as the same number.
pub proof fn law_number_read_back(n: i64)
    ensures
        int_value(int_text(n as int)) == Some(n),
{
    let size = if n < 0 {
        (-n) as nat
    } else {
        n as nat
    };
    let t = nat_text(size);
    lemma_nat_text(size, 0);
    assert(zeros(0) + t =~= t);
    assert(is_digit(t[0]));
    if n < 0 {
        assert(int_text(n as int).drop_first() =~= t);
    }
}

/// What is read as a number has digits only, at least one, behind a sign or none; a plus makes
/// no difference, and a minus makes the number negative.
pub proof fn law_number_form(s: Seq<char>)
    ensures
        int_value(s) is Some ==> s.len() > 0 && (s.len() == 1 ==> is_digit(s[0])) && (is_digit(s[0])
            || s[0] == '+' || s[0] == '-') && forall|k: int|
            1 <= k < s.len() ==> is_digit(#[trigger] s[k]),
        int_value(s) matches Some(n) ==> (s[0] == '-' ==> n <= 0),
        int_value(s) matches Some(n) ==> (s[0] != '-' ==> n >= 0),
        s.len() > 0 && is_digit(s[0]) ==> int_value(seq!['+'] + s) == int_value(s),
        s.len() > 0 && is_digit(s[0]) && int_value(s) is Some ==> int_value(seq!['-'] + s) == Some(
            (-int_value(s)->0) as i64,
        ),
{
    let body = unsigned(s);
    if int_value(s) is Some {
        if is_sign(s[0]) {
            assert forall|k: int| 1 <= k < s.len() implies is_digit(#[trigger] s[k]) by {
                assert(body[k - 1] == s[k]);
            }
        } else {
            assert(is_digit(body[0]));
        }
    }
    if s.len() > 0 && is_digit(s[0]) {
        assert((seq!['+'] + s).drop_first() =~= s);
        assert((seq!['-'] + s).drop_first() =~= s);
    }
}

/// A number that is filled up has zeros in front of its digits, as many as the width asks for
/// and no more.
pub proof fn law_filled_up(n: nat, width: int)
    ensures
        padded_text(n as int, width).len() == if width > nat_text(n).len() {
            width
        } else {
            nat_text(n).len() as int
        },
        forall|i: int|
            0 <= i < padded_text(n as int, width).len() - nat_text(n).len() ==> (
            #[trigger] padded_text(n as int, width)[i]) == '0',
        padded_text(n as int, width).skip(
            padded_text(n as int, width).len() - nat_text(n).len(),
        ) == nat_text(n),
{
    let p = padded_text(n as int, width);
    assert(p.skip(p.len() - nat_text(n).len()) =~= nat_text(n));
}

}
