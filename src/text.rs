//! Text forms of extended fractions: `nan`, `inf`, `-inf`, an integer, or
//! `numerator/denominator`.
use crate::float::float_value;
use crate::fraction::{ratio_fits_check, ExtFraction};
use crate::value::{in_range, int_value, ratio, ratio_fits, ExtValue};
use vstd::prelude::*;
use vstd::string::StringExecFns;

verus! {

/// The character of a decimal digit.
pub open spec fn digit_char(d: int) -> char {
    if d == 0 {
        '0'
    } else if d == 1 {
        '1'
    } else if d == 2 {
        '2'
    } else if d == 3 {
        '3'
    } else if d == 4 {
        '4'
    } else if d == 5 {
        '5'
    } else if d == 6 {
        '6'
    } else if d == 7 {
        '7'
    } else if d == 8 {
        '8'
    } else {
        '9'
    }
}

/// The decimal digits of `n`, most significant first, without leading zeros.
pub open spec fn digits_of(n: nat) -> Seq<char>
    decreases n,
{
    if n < 10 {
        seq![digit_char(n as int)]
    } else {
        digits_of(n / 10).push(digit_char((n % 10) as int))
    }
}

/// Decimal text of an integer: a minus sign for a negative one, then the
/// digits of its magnitude.
pub open spec fn int_text(v: int) -> Seq<char> {
    if v < 0 {
        seq!['-'] + digits_of((-v) as nat)
    } else {
        digits_of(v as nat)
    }
}

/// The canonical text of a value: `nan`, `inf`, `-inf`, the bare numerator of
/// an integer, or `numerator/denominator`.
pub open spec fn format_value(v: ExtValue) -> Seq<char> {
    match v {
        ExtValue::NaN => seq!['n', 'a', 'n'],
        ExtValue::PosInf => seq!['i', 'n', 'f'],
        ExtValue::NegInf => seq!['-', 'i', 'n', 'f'],
        ExtValue::Finite { num, den } => if den == 1 {
            int_text(num)
        } else {
            int_text(num) + seq!['/'] + int_text(den)
        },
    }
}

/// Characters with the Unicode White_Space property.
pub open spec fn is_white_space(c: char) -> bool {
    ('\u{9}' <= c && c <= '\u{d}') || c == ' ' || c == '\u{85}' || c == '\u{a0}' || c == '\u{1680}'
        || ('\u{2000}' <= c && c <= '\u{200a}') || c == '\u{2028}' || c == '\u{2029}' || c
        == '\u{202f}' || c == '\u{205f}' || c == '\u{3000}'
}

pub open spec fn trim_start(t: Seq<char>) -> Seq<char>
    decreases t.len(),
{
    if t.len() > 0 && is_white_space(t[0]) {
        trim_start(t.skip(1))
    } else {
        t
    }
}

pub open spec fn trim_end(t: Seq<char>) -> Seq<char>
    decreases t.len(),
{
    if t.len() > 0 && is_white_space(t.last()) {
        trim_end(t.drop_last())
    } else {
        t
    }
}

/// `t` without its leading and trailing white space.
pub open spec fn trimmed(t: Seq<char>) -> Seq<char> {
    trim_end(trim_start(t))
}

pub open spec fn is_digit(c: char) -> bool {
    '0' <= c && c <= '9'
}

pub open spec fn digit_value(c: char) -> int {
    (c as u32) - ('0' as u32)
}

/// The number that a string of decimal digits spells.
pub open spec fn digits_value(t: Seq<char>) -> int
    decreases t.len(),
{
    if t.len() == 0 {
        0
    } else {
        10 * digits_value(t.drop_last()) + digit_value(t.last())
    }
}

pub open spec fn all_digits(t: Seq<char>) -> bool {
    forall|i: int| 0 <= i < t.len() ==> is_digit(#[trigger] t[i])
}

/// The integer that `t` spells as an optional sign followed by one or more
/// decimal digits, if it is one.
pub open spec fn int_literal(t: Seq<char>) -> Option<int> {
    let signed = t.len() > 0 && (t[0] == '+' || t[0] == '-');
    let body = if signed {
        t.skip(1)
    } else {
        t
    };
    if body.len() > 0 && all_digits(body) {
        Some(
            if signed && t[0] == '-' {
                -digits_value(body)
            } else {
                digits_value(body)
            },
        )
    } else {
        None
    }
}

/// An integer literal whose value is an `i128`.
pub open spec fn i128_literal(t: Seq<char>) -> Option<int> {
    match int_literal(t) {
        Some(v) => if i128::MIN <= v <= i128::MAX {
            Some(v)
        } else {
            None
        },
        None => None,
    }
}

/// `c` is the keyword letter `k` in either ASCII case.
pub open spec fn same_letter(c: char, k: char) -> bool {
    c == k || ('a' <= k && k <= 'z' && (c as u32) == (k as u32) - 32)
}

/// `t` spells the lower-case keyword `k`, ignoring ASCII case.
pub open spec fn is_keyword(t: Seq<char>, k: Seq<char>) -> bool {
    t.len() == k.len() && forall|i: int| 0 <= i < t.len() ==> same_letter(#[trigger] t[i], k[i])
}

pub open spec fn count_char(t: Seq<char>, c: char) -> nat
    decreases t.len(),
{
    if t.len() == 0 {
        0
    } else {
        count_char(t.drop_last(), c) + if t.last() == c {
            1nat
        } else {
            0nat
        }
    }
}

/// The position of the first `c` in `t`, or its length.
pub open spec fn find_char(t: Seq<char>, c: char) -> int
    decreases t.len(),
{
    if t.len() == 0 {
        0
    } else if t[0] == c {
        0
    } else {
        1 + find_char(t.skip(1), c)
    }
}

/// The value that a keyword spells: `inf`, `+inf`, `infinity` or
/// `+infinity`; `-inf` or `-infinity`; `nan`; in any ASCII case.
pub open spec fn keyword_value(t: Seq<char>) -> Option<ExtValue> {
    if is_keyword(t, "inf"@) || is_keyword(t, "+inf"@) || is_keyword(t, "infinity"@) || is_keyword(
        t,
        "+infinity"@,
    ) {
        Some(ExtValue::PosInf)
    } else if is_keyword(t, "-inf"@) || is_keyword(t, "-infinity"@) {
        Some(ExtValue::NegInf)
    } else if is_keyword(t, "nan"@) {
        Some(ExtValue::NaN)
    } else {
        None
    }
}

/// The value of `numerator/denominator` text with one `/` at position `i`.
pub open spec fn parse_ratio(t: Seq<char>, i: int) -> Result<ExtValue, Seq<char>> {
    match (i128_literal(t.subrange(0, i)), i128_literal(t.subrange(i + 1, t.len() as int))) {
        (None, _) => Err("Invalid numerator"@),
        (Some(_), None) => Err("Invalid denominator"@),
        (Some(n), Some(d)) => if ratio_fits(n, d) {
            Ok(ratio(n, d))
        } else {
            Err("Value out of range"@)
        },
    }
}

/// The value of integer text.
pub open spec fn parse_integer(t: Seq<char>) -> Result<ExtValue, Seq<char>> {
    match i128_literal(t) {
        None => Err("Invalid integer"@),
        Some(n) => if in_range(n) {
            Ok(int_value(n))
        } else {
            Err("Value out of range"@)
        },
    }
}

/// The value that the trimmed text `t` denotes, or the message of its error.
/// `float_bits` is the bit pattern of the double that `t` spells as a float
/// literal, if it spells one; it is read only for text with a `.` and no `/`.
pub open spec fn parse_text(t: Seq<char>, float_bits: Option<u64>) -> Result<ExtValue, Seq<char>> {
    if keyword_value(t) is Some {
        Ok(keyword_value(t)->0)
    } else if count_char(t, '/') > 0 {
        if count_char(t, '/') != 1 {
            Err("Invalid fraction format"@)
        } else {
            parse_ratio(t, find_char(t, '/'))
        }
    } else if count_char(t, '.') > 0 {
        match float_bits {
            Some(b) => Ok(float_value(b)),
            None => Err("Invalid float"@),
        }
    } else {
        parse_integer(t)
    }
}

/// Relies on `str::trim`: the text without leading and trailing characters
/// that have the Unicode White_Space property.
#[verifier::external_body]
fn trim_text(s: &str) -> (r: &str)
    ensures
        r@ == trimmed(s@),
{
    s.trim()
}

/// Relies on `ToString` for `i128`, which writes its decimal `Display` form:
/// a minus sign when negative, then the digits without leading zeros.
#[verifier::external_body]
fn decimal_text(v: i128) -> (r: String)
    ensures
        r@ == int_text(v as int),
{
    v.to_string()
}

/// The characters of `s`.
fn chars_of(s: &str) -> (v: Vec<char>)
    ensures
        v@ == s@,
{
    let mut v: Vec<char> = Vec::new();
    for c in it: s.chars()
        invariant
            v@ == it.seq().subrange(0, it.index() as int),
    {
        v.push(c);
    }
    v
}

/// Whether `t` spells the lower-case keyword `k`, ignoring ASCII case.
fn matches_keyword(t: &Vec<char>, k: &str) -> (r: bool)
    ensures
        r == is_keyword(t@, k@),
{
    let kw = chars_of(k);
    if t.len() != kw.len() {
        return false;
    }
    let mut i: usize = 0;
    while i < t.len()
        invariant
            kw@ == k@,
            t.len() == kw.len(),
            i <= t.len(),
            forall|j: int| 0 <= j < i ==> same_letter(#[trigger] t@[j], kw@[j]),
        decreases t.len() - i,
    {
        let c = t[i];
        let l = kw[i];
        if !(c == l || ('a' <= l && l <= 'z' && (c as u32) == (l as u32) - 32)) {
            proof {
                assert(!same_letter(t@[i as int], kw@[i as int]));
            }
            return false;
        }
        i = i + 1;
    }
    true
}

/// How often `c` occurs in `t`, and where it first does.
fn scan_char(t: &Vec<char>, c: char) -> (r: (usize, usize))
    ensures
        r.0 == count_char(t@, c),
        r.1 == find_char(t@, c),
        r.1 <= t.len(),
        r.0 > 0 ==> r.1 < t.len(),
{
    let mut count: usize = 0;
    let mut first: usize = t.len();
    let mut i: usize = 0;
    while i < t.len()
        invariant
            i <= t.len(),
            count == count_char(t@.subrange(0, i as int), c),
            count <= i,
            first <= t.len(),
            first == t.len() ==> count == 0,
            first == t.len() ==> forall|j: int| 0 <= j < i ==> t@[j] != c,
            first < t.len() ==> first < i && t@[first as int] == c && forall|j: int|
                0 <= j < first ==> t@[j] != c,
        decreases t.len() - i,
    {
        proof {
            assert(t@.subrange(0, i + 1).drop_last() =~= t@.subrange(0, i as int));
        }
        if t[i] == c {
            count = count + 1;
            if first == t.len() {
                first = i;
            }
        }
        i = i + 1;
    }
    proof {
        assert(t@.subrange(0, t.len() as int) =~= t@);
        lemma_find_char(t@, c, first as int);
    }
    (count, first)
}

/// `find_char` is the first position of `c`, or the length when there is
/// none.
proof fn lemma_find_char(t: Seq<char>, c: char, first: int)
    requires
        0 <= first <= t.len(),
        forall|j: int| 0 <= j < first ==> t[j] != c,
        first < t.len() ==> t[first] == c,
    ensures
        find_char(t, c) == first,
    decreases t.len(),
{
    if t.len() > 0 && t[0] != c {
        lemma_find_char(t.skip(1), c, first - 1);
    }
}

/// The digits of a number are decimal digits that spell it.
pub(crate) proof fn lemma_digits_of(n: nat)
    ensures
        digits_of(n).len() > 0,
        all_digits(digits_of(n)),
        digits_value(digits_of(n)) == n,
    decreases n,
{
    if n < 10 {
        let t = digits_of(n);
        assert(t.drop_last() =~= Seq::<char>::empty());
        assert(digits_value(Seq::<char>::empty()) == 0);
        assert(is_digit(t[0]) && digit_value(t[0]) == n);
        assert(t.last() == t[0]);
    } else {
        lemma_digits_of(n / 10);
        let t = digits_of(n);
        assert(t.drop_last() =~= digits_of(n / 10));
        let d = (n % 10) as int;
        assert(is_digit(digit_char(d)) && digit_value(digit_char(d)) == d);
        assert(t.last() == digit_char(d));
        vstd::arithmetic::div_mod::lemma_fundamental_div_mod(n as int, 10);
        assert forall|i: int| 0 <= i < t.len() implies is_digit(#[trigger] t[i]) by {
            if i < t.len() - 1 {
                assert(t[i] == digits_of(n / 10)[i]);
            }
        }
    }
}

/// No character of `t` is `c`, so `c` is counted zero times.
pub(crate) proof fn lemma_count_absent(t: Seq<char>, c: char)
    requires
        forall|i: int| 0 <= i < t.len() ==> t[i] != c,
    ensures
        count_char(t, c) == 0,
    decreases t.len(),
{
    if t.len() > 0 {
        lemma_count_absent(t.drop_last(), c);
    }
}

/// Counting over a concatenation adds the counts.
pub(crate) proof fn lemma_count_concat(a: Seq<char>, b: Seq<char>, c: char)
    ensures
        count_char(a + b, c) == count_char(a, c) + count_char(b, c),
    decreases b.len(),
{
    if b.len() == 0 {
        assert(a + b =~= a);
    } else {
        lemma_count_concat(a, b.drop_last(), c);
        assert((a + b).drop_last() =~= a + b.drop_last());
    }
}

/// The decimal text of an `i128` in range is an integer literal that spells
/// it, made of digits and at most a leading minus sign.
pub(crate) proof fn lemma_int_text(v: int)
    requires
        i128::MIN <= v <= i128::MAX,
    ensures
        int_text(v).len() > 0,
        i128_literal(int_text(v)) == Some(v),
        forall|i: int|
            0 <= i < int_text(v).len() ==> is_digit(#[trigger] int_text(v)[i]) || (i == 0
                && int_text(v)[i] == '-'),
        int_text(v).len() > 1 || is_digit(int_text(v)[0]),
        is_digit(int_text(v).last()),
        is_digit(int_text(v)[0]) || is_digit(int_text(v)[1]),
{
    let t = int_text(v);
    if v < 0 {
        lemma_digits_of((-v) as nat);
        let d = digits_of((-v) as nat);
        assert(t.skip(1) =~= d);
        assert(t[0] == '-');
        assert(is_digit(d[0]));
        assert forall|i: int| 0 <= i < t.len() implies is_digit(#[trigger] t[i]) || (i == 0 && t[i]
            == '-') by {
            if i > 0 {
                assert(t[i] == d[i - 1]);
            }
        }
    } else {
        lemma_digits_of(v as nat);
        assert(!(t[0] == '+' || t[0] == '-'));
    }
}

/// A text with no white space at either end is its own trimmed form.
pub(crate) proof fn lemma_trimmed_unchanged(t: Seq<char>)
    requires
        t.len() > 0,
        !is_white_space(t[0]),
        !is_white_space(t.last()),
    ensures
        trimmed(t) == t,
{
}

/// Text that starts with a digit, or with a minus sign and a digit, spells no
/// keyword.
pub(crate) proof fn lemma_no_keyword(t: Seq<char>)
    requires
        t.len() > 0,
        is_digit(t[0]) || (t.len() > 1 && t[0] == '-' && is_digit(t[1])),
    ensures
        keyword_value(t) is None,
{
    reveal_strlit("inf");
    reveal_strlit("+inf");
    reveal_strlit("infinity");
    reveal_strlit("+infinity");
    reveal_strlit("-inf");
    reveal_strlit("-infinity");
    reveal_strlit("nan");
    if is_digit(t[0]) {
        assert(!same_letter(t[0], 'i') && !same_letter(t[0], '+') && !same_letter(t[0], '-')
            && !same_letter(t[0], 'n'));
    } else {
        assert(!same_letter(t[0], 'i') && !same_letter(t[0], '+') && !same_letter(t[0], 'n'));
        assert(!same_letter(t[1], 'i'));
    }
}

/// The position of `c` between `a` and `b` when `a` holds none.
pub(crate) proof fn lemma_find_between(a: Seq<char>, b: Seq<char>, c: char)
    requires
        forall|i: int| 0 <= i < a.len() ==> a[i] != c,
    ensures
        find_char(a + seq![c] + b, c) == a.len(),
{
    let t = a + seq![c] + b;
    assert forall|j: int| 0 <= j < a.len() implies t[j] != c by {
        assert(t[j] == a[j]);
    }
    lemma_find_char(t, c, a.len() as int);
}

/// Digit strings grow in value as they grow in length.
proof fn lemma_digits_grow(t: Seq<char>, i: int, j: int)
    requires
        0 <= i <= j <= t.len(),
        all_digits(t),
    ensures
        digits_value(t.subrange(0, i)) <= digits_value(t.subrange(0, j)),
        digits_value(t.subrange(0, i)) >= 0,
    decreases j,
{
    lemma_digits_nonneg(t.subrange(0, i));
    if i < j {
        lemma_digits_grow(t, i, j - 1);
        assert(t.subrange(0, j).drop_last() =~= t.subrange(0, j - 1));
        lemma_digits_nonneg(t.subrange(0, j - 1));
    }
}

proof fn lemma_digits_nonneg(t: Seq<char>)
    requires
        all_digits(t),
    ensures
        digits_value(t) >= 0,
    decreases t.len(),
{
    if t.len() > 0 {
        assert(all_digits(t.drop_last()));
        lemma_digits_nonneg(t.drop_last());
    }
}

/// The `i128` that `t[start..end]` spells as an integer literal, if any.
fn parse_i128(t: &Vec<char>, start: usize, end: usize) -> (r: Option<i128>)
    requires
        start <= end <= t.len(),
    ensures
        r is Some <==> i128_literal(t@.subrange(start as int, end as int)) is Some,
        r is Some ==> r->0 == i128_literal(t@.subrange(start as int, end as int))->0,
{
    let ghost s = t@.subrange(start as int, end as int);
    let mut i = start;
    let mut negative = false;
    if i < end && (t[i] == '+' || t[i] == '-') {
        negative = t[i] == '-';
        i = i + 1;
    }
    let ghost signed = s.len() > 0 && (s[0] == '+' || s[0] == '-');
    let ghost body = if signed {
        s.skip(1)
    } else {
        s
    };
    proof {
        assert(body =~= t@.subrange(i as int, end as int));
    }
    if i == end {
        proof {
            assert(body.len() == 0);
            assert(int_literal(s) is None);
        }
        return None;
    }
    let digits_start = i;
    let mut mag: u128 = 0;
    let limit: u128 = 0x8000_0000_0000_0000_0000_0000_0000_0000;
    while i < end
        invariant
            s == t@.subrange(start as int, end as int),
            signed == (s.len() > 0 && (s[0] == '+' || s[0] == '-')),
            body == (if signed {
                s.skip(1)
            } else {
                s
            }),
            negative == (signed && s[0] == '-'),
            start <= digits_start <= i <= end <= t.len(),
            body =~= t@.subrange(digits_start as int, end as int),
            forall|j: int| digits_start <= j < i ==> is_digit(#[trigger] t@[j]),
            mag == digits_value(t@.subrange(digits_start as int, i as int)),
            mag <= limit,
            limit == 0x8000_0000_0000_0000_0000_0000_0000_0000u128,
        decreases end - i,
    {
        let c = t[i];
        if !('0' <= c && c <= '9') {
            proof {
                assert(body[i - digits_start] == c);
                assert(!is_digit(body[i - digits_start]));
                assert(!all_digits(body));
                assert(int_literal(s) is None);
            }
            return None;
        }
        let digit = ((c as u32) - ('0' as u32)) as u128;
        proof {
            assert(t@.subrange(digits_start as int, i + 1).drop_last() =~= t@.subrange(
                digits_start as int,
                i as int,
            ));
        }
        if mag > (limit - digit) / 10 {
            proof {
                let k = (i + 1 - digits_start) as int;
                assert(body.subrange(0, k) =~= t@.subrange(digits_start as int, i + 1));
                if all_digits(body) {
                    lemma_digits_grow(body, k, body.len() as int);
                    assert(body.subrange(0, body.len() as int) =~= body);
                }
            }
            return None;
        }
        mag = mag * 10 + digit;
        i = i + 1;
    }
    proof {
        assert(all_digits(body));
        assert(t@.subrange(digits_start as int, end as int) =~= body);
    }
    if negative {
        if mag == limit {
            Some(i128::MIN)
        } else {
            Some(-(mag as i128))
        }
    } else if mag > i128::MAX as u128 {
        None
    } else {
        Some(mag as i128)
    }
}

impl ExtFraction {
    /// The canonical text: `nan`, `inf`, `-inf`, the bare numerator of an
    /// integer, or `numerator/denominator`.
    pub fn to_string(&self) -> (r: String)
        ensures
            r@ == format_value(self@),
    {
        if self.is_nan() {
            proof {
                reveal_strlit("nan");
            }
            return "nan".to_owned();
        }
        if self.is_infinite() {
            proof {
                reveal_strlit("inf");
                reveal_strlit("-inf");
            }
            return if self.numerator() > 0 {
                "inf".to_owned()
            } else {
                "-inf".to_owned()
            };
        }
        let num = self.numerator();
        let den = self.denominator();
        if den == 1 {
            decimal_text(num)
        } else {
            let mut s = decimal_text(num);
            s.append("/");
            let d = decimal_text(den);
            s.append(d.as_str());
            proof {
                reveal_strlit("/");
            }
            s
        }
    }

    /// Parses text, ignoring surrounding white space and the ASCII case of the
    /// keywords `inf`, `infinity` and `nan` (with an optional sign on the
    /// infinities): `numerator/denominator` reduces as `new` does; text with a
    /// `.` is a float literal, whose double's bit pattern the caller passes as
    /// `float_bits` (none when the text is no float literal); anything else is
    /// an integer.
    pub fn from_str(s: &str, float_bits: Option<u64>) -> (r: Result<ExtFraction, String>)
        ensures
            match parse_text(trimmed(s@), float_bits) {
                Ok(v) => r is Ok && r->Ok_0@ == v,
                Err(e) => r is Err && r->Err_0@ == e,
            },
    {
        let t = chars_of(trim_text(s));
        match keyword_fraction(&t) {
            Some(f) => {
                return Ok(f);
            },
            None => {},
        }
        let (slashes, at) = scan_char(&t, '/');
        if slashes > 0 {
            if slashes != 1 {
                return Err("Invalid fraction format".to_owned());
            }
            return ratio_fraction(&t, at);
        }
        let (dots, _) = scan_char(&t, '.');
        if dots > 0 {
            return match float_bits {
                Some(b) => Ok(ExtFraction::from_float_bits(b)),
                None => Err("Invalid float".to_owned()),
            };
        }
        integer_fraction(&t)
    }
}

/// The fraction that a keyword spells, if `t` is one.
fn keyword_fraction(t: &Vec<char>) -> (r: Option<ExtFraction>)
    ensures
        r is Some <==> keyword_value(t@) is Some,
        r is Some ==> r->0@ == keyword_value(t@)->0,
{
    if matches_keyword(t, "inf") || matches_keyword(t, "+inf") || matches_keyword(t, "infinity")
        || matches_keyword(t, "+infinity") {
        return Some(ExtFraction::infinity(true));
    }
    if matches_keyword(t, "-inf") || matches_keyword(t, "-infinity") {
        return Some(ExtFraction::infinity(false));
    }
    if matches_keyword(t, "nan") {
        return Some(ExtFraction::nan());
    }
    None
}

/// The fraction that `numerator/denominator` text spells, with its one `/`
/// at position `at`.
fn ratio_fraction(t: &Vec<char>, at: usize) -> (r: Result<ExtFraction, String>)
    requires
        at < t.len(),
    ensures
        match parse_ratio(t@, at as int) {
            Ok(v) => r is Ok && r->Ok_0@ == v,
            Err(e) => r is Err && r->Err_0@ == e,
        },
{
    let num = match parse_i128(t, 0, at) {
        Some(v) => v,
        None => {
            return Err("Invalid numerator".to_owned());
        },
    };
    let den = match parse_i128(t, at + 1, t.len()) {
        Some(v) => v,
        None => {
            return Err("Invalid denominator".to_owned());
        },
    };
    if !ratio_fits_check(num, den) {
        return Err("Value out of range".to_owned());
    }
    Ok(ExtFraction::new(num, den))
}

/// The fraction that integer text spells.
fn integer_fraction(t: &Vec<char>) -> (r: Result<ExtFraction, String>)
    ensures
        match parse_integer(t@) {
            Ok(v) => r is Ok && r->Ok_0@ == v,
            Err(e) => r is Err && r->Err_0@ == e,
        },
{
    proof {
        assert(t@.subrange(0, t.len() as int) =~= t@);
    }
    match parse_i128(t, 0, t.len()) {
        Some(n) => {
            if n == i128::MIN {
                Err("Value out of range".to_owned())
            } else {
                Ok(ExtFraction::from_integer(n))
            }
        },
        None => Err("Invalid integer".to_owned()),
    }
}

} // verus!
