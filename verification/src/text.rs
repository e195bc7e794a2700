//! Text as the routing rules read it: characters, decimal numbers,
//! white space, integer parsing and the order of names.

use vstd::prelude::*;

verus! {

// ---------------------------------------------------------------------------
// Characters of a text
// ---------------------------------------------------------------------------

/// The characters of a text, in order.
pub fn chars_of(s: &str) -> (v: Vec<char>)
    ensures
        v@ == s@,
{
    let mut v: Vec<char> = Vec::new();
    for c in it: s.chars()
        invariant
            v@ == it.seq().take(it.index()),
    {
        v.push(c);
    }
    proof {
        broadcast use vstd::string::axiom_spec_iter;
    }
    v
}

/// A fresh `String` holding the text of `s`.
pub fn owned(s: &str) -> (r: String)
    ensures
        r@ == s@,
{
    proof {
        broadcast use vstd::string::to_string_from_display_ensures_for_str;
    }
    s.to_string()
}

// ---------------------------------------------------------------------------
// Decimal rendering of integers
// ---------------------------------------------------------------------------

/// The character of one decimal digit.
pub open spec fn digit_char(d: nat) -> char {
    ('0' as int + d) as char
}

/// The decimal digits of a natural number, most significant first.
pub open spec fn digits(n: nat) -> Seq<char>
    decreases n,
{
    if n < 10 {
        seq![digit_char(n)]
    } else {
        digits(n / 10).push(digit_char(n % 10))
    }
}

/// An integer as it is written: a minus sign for a negative number, then its
/// decimal digits.
pub open spec fn decimal(n: int) -> Seq<char> {
    if n < 0 {
        seq!['-'] + digits((-n) as nat)
    } else {
        digits(n as nat)
    }
}

fn digit_str(d: u64) -> (s: &'static str)
    requires
        d < 10,
    ensures
        s@ == seq![digit_char(d as nat)],
{
    proof {
        reveal_strlit("0");
        reveal_strlit("1");
        reveal_strlit("2");
        reveal_strlit("3");
        reveal_strlit("4");
        reveal_strlit("5");
        reveal_strlit("6");
        reveal_strlit("7");
        reveal_strlit("8");
        reveal_strlit("9");
    }
    match d {
        0 => "0",
        1 => "1",
        2 => "2",
        3 => "3",
        4 => "4",
        5 => "5",
        6 => "6",
        7 => "7",
        8 => "8",
        _ => "9",
    }
}

fn digits_text(n: u64) -> (s: String)
    ensures
        s@ == digits(n as nat),
    decreases n,
{
    if n < 10 {
        owned(digit_str(n))
    } else {
        let mut s = digits_text(n / 10);
        s.append(digit_str(n % 10));
        s
    }
}

/// An integer written in decimal.
pub fn decimal_text(n: i64) -> (s: String)
    ensures
        s@ == decimal(n as int),
{
    if n < 0 {
        let magnitude: u64 = (0i128 - n as i128) as u64;
        let mut s = owned("-");
        proof {
            reveal_strlit("-");
        }
        let rest = digits_text(magnitude);
        s.append(rest.as_str());
        s
    } else {
        digits_text(n as u64)
    }
}

// ---------------------------------------------------------------------------
// White space and trimming
// ---------------------------------------------------------------------------

/// Whether a character has the Unicode White_Space property, which is what
/// `char::is_whitespace` and `str::trim` go by.
pub open spec fn is_white(c: char) -> bool {
    let u = c as int;
    ||| 0x9 <= u <= 0xD
    ||| u == 0x20
    ||| u == 0x85
    ||| u == 0xA0
    ||| u == 0x1680
    ||| 0x2000 <= u <= 0x200A
    ||| u == 0x2028
    ||| u == 0x2029
    ||| u == 0x202F
    ||| u == 0x205F
    ||| u == 0x3000
}

pub fn is_white_char(c: char) -> (r: bool)
    ensures
        r == is_white(c),
{
    let u = c as u32;
    (0x9 <= u && u <= 0xD) || u == 0x20 || u == 0x85 || u == 0xA0 || u == 0x1680 || (0x2000
        <= u && u <= 0x200A) || u == 0x2028 || u == 0x2029 || u == 0x202F || u == 0x205F || u
        == 0x3000
}

/// The text without its leading white space.
pub open spec fn trim_start(s: Seq<char>) -> Seq<char>
    decreases s.len(),
{
    if s.len() > 0 && is_white(s[0]) {
        trim_start(s.drop_first())
    } else {
        s
    }
}

/// The text without its trailing white space.
pub open spec fn trim_end(s: Seq<char>) -> Seq<char>
    decreases s.len(),
{
    if s.len() > 0 && is_white(s.last()) {
        trim_end(s.drop_last())
    } else {
        s
    }
}

/// The text without leading and trailing white space, as `str::trim` gives it.
pub open spec fn trim(s: Seq<char>) -> Seq<char> {
    trim_end(trim_start(s))
}

proof fn lemma_trim_start_skip(s: Seq<char>, i: int)
    requires
        0 <= i <= s.len(),
        forall|j: int| 0 <= j < i ==> is_white(#[trigger] s[j]),
    ensures
        trim_start(s) == trim_start(s.skip(i)),
    decreases i,
{
    if i > 0 {
        assert(s.drop_first() == s.skip(1));
        lemma_trim_start_skip(s.drop_first(), i - 1);
        assert(s.drop_first().skip(i - 1) == s.skip(i));
    } else {
        assert(s.skip(0) == s);
    }
}

proof fn lemma_trim_end_take(s: Seq<char>, i: int)
    requires
        0 <= i <= s.len(),
        forall|j: int| i <= j < s.len() ==> is_white(#[trigger] s[j]),
    ensures
        trim_end(s) == trim_end(s.take(i)),
    decreases s.len() - i,
{
    if i < s.len() {
        lemma_trim_end_take(s.drop_last(), i);
        assert(s.drop_last().take(i) == s.take(i));
    } else {
        assert(s.take(i) == s);
    }
}

/// The bounds of the trimmed text inside `s`: `trim(s)` is `s[lo..hi]`.
pub fn trim_bounds(s: &Vec<char>) -> (r: (usize, usize))
    ensures
        r.0 <= r.1 <= s.len(),
        s@.subrange(r.0 as int, r.1 as int) == trim(s@),
{
    let n = s.len();
    let mut lo: usize = 0;
    while lo < n && is_white_char(s[lo])
        invariant
            lo <= n == s.len(),
            forall|j: int| 0 <= j < lo ==> is_white(#[trigger] s@[j]),
        decreases n - lo,
    {
        lo = lo + 1;
    }
    proof {
        lemma_trim_start_skip(s@, lo as int);
    }
    let ghost t = s@.skip(lo as int);
    assert(trim_start(s@) == t);
    let mut hi: usize = n;
    while hi > lo && is_white_char(s[hi - 1])
        invariant
            lo <= hi <= n == s.len(),
            t == s@.skip(lo as int),
            forall|j: int| hi <= j < n ==> is_white(#[trigger] s@[j]),
        decreases hi,
    {
        hi = hi - 1;
    }
    proof {
        assert forall|j: int| hi - lo <= j < t.len() implies is_white(#[trigger] t[j]) by {
            assert(t[j] == s@[j + lo]);
        }
        lemma_trim_end_take(t, hi - lo);
        assert(t.take(hi - lo) == s@.subrange(lo as int, hi as int));
    }
    (lo, hi)
}

// ---------------------------------------------------------------------------
// Reading an integer, as `i64::from_str` does
// ---------------------------------------------------------------------------

pub open spec fn is_digit(c: char) -> bool {
    '0' as int <= c as int <= '9' as int
}

pub open spec fn digit_value(c: char) -> int {
    c as int - '0' as int
}

/// The value of a run of decimal digits.
pub open spec fn digits_value(s: Seq<char>) -> int
    decreases s.len(),
{
    if s.len() == 0 {
        0
    } else {
        digits_value(s.drop_last()) * 10 + digit_value(s.last())
    }
}

/// The digits after an optional sign.
pub open spec fn unsigned_part(s: Seq<char>) -> Seq<char> {
    if s.len() > 0 && (s[0] == '-' || s[0] == '+') {
        s.drop_first()
    } else {
        s
    }
}

/// What `i64::from_str` reads from a text: an optional `+` or `-`, then one or
/// more ASCII digits, and a value that fits in an `i64`; nothing else.
pub open spec fn parse_integer(s: Seq<char>) -> Option<i64> {
    let body = unsigned_part(s);
    if body.len() == 0 || !(forall|i: int| 0 <= i < body.len() ==> is_digit(#[trigger] body[i])) {
        None
    } else {
        let v = if s[0] == '-' {
            -digits_value(body)
        } else {
            digits_value(body)
        };
        if i64::MIN <= v <= i64::MAX {
            Some(v as i64)
        } else {
            None
        }
    }
}

proof fn lemma_digits_value_nonneg(s: Seq<char>)
    requires
        forall|i: int| 0 <= i < s.len() ==> is_digit(#[trigger] s[i]),
    ensures
        digits_value(s) >= 0,
    decreases s.len(),
{
    if s.len() > 0 {
        lemma_digits_value_nonneg(s.drop_last());
        assert(is_digit(s[s.len() - 1]));
    }
}

proof fn lemma_digits_value_prefix(s: Seq<char>, k: int)
    requires
        0 <= k <= s.len(),
        forall|i: int| 0 <= i < s.len() ==> is_digit(#[trigger] s[i]),
    ensures
        digits_value(s.take(k)) <= digits_value(s),
    decreases s.len() - k,
{
    if k < s.len() {
        lemma_digits_value_prefix(s, k + 1);
        let t = s.take(k + 1);
        assert(t.drop_last() == s.take(k));
        assert forall|i: int| 0 <= i < t.len() implies is_digit(#[trigger] t[i]) by {
            assert(t[i] == s[i]);
        }
        assert forall|i: int| 0 <= i < k implies is_digit(#[trigger] s.take(k)[i]) by {
            assert(s.take(k)[i] == s[i]);
        }
        lemma_digits_value_nonneg(s.take(k));
        assert(is_digit(s[k]));
        assert(t.last() == s[k]);
    } else {
        assert(s.take(k) == s);
    }
}

/// Read `s[lo..hi]` as an `i64`, as `i64::from_str` reads it.
pub fn parse_integer_in(s: &Vec<char>, lo: usize, hi: usize) -> (r: Option<i64>)
    requires
        lo <= hi <= s.len(),
    ensures
        r == parse_integer(s@.subrange(lo as int, hi as int)),
{
    let ghost text = s@.subrange(lo as int, hi as int);
    if lo == hi {
        return None;
    }
    let negative = s[lo] == '-';
    let start: usize = if s[lo] == '-' || s[lo] == '+' {
        lo + 1
    } else {
        lo
    };
    let ghost body = unsigned_part(text);
    assert(body == s@.subrange(start as int, hi as int));
    if start == hi {
        return None;
    }
    // The magnitude that still fits: 2^63 for a negative number, 2^63 - 1 otherwise.
    let limit: i128 = if negative {
        0x8000_0000_0000_0000i128
    } else {
        0x7fff_ffff_ffff_ffffi128
    };
    let mut acc: i128 = 0;
    let mut i: usize = start;
    let mut too_big = false;
    while i < hi
        invariant
            lo < start <= hi <= s.len() || lo == start < hi <= s.len(),
            start <= i <= hi,
            body == s@.subrange(start as int, hi as int),
            body == unsigned_part(s@.subrange(lo as int, hi as int)),
            lo < hi,
            negative == (s@[lo as int] == '-'),
            negative ==> limit == 0x8000_0000_0000_0000i128,
            !negative ==> limit == 0x7fff_ffff_ffff_ffffi128,
            forall|j: int| 0 <= j < i - start ==> is_digit(#[trigger] body[j]),
            !too_big ==> acc == digits_value(body.take(i - start)),
            !too_big ==> 0 <= acc <= limit,
            too_big ==> digits_value(body.take(i - start)) > limit,
            limit == 0x8000_0000_0000_0000i128 || limit == 0x7fff_ffff_ffff_ffffi128,
        decreases hi - i,
    {
        let c = s[i];
        assert(c == body[i - start]);
        if !('0' <= c && c <= '9') {
            assert(!is_digit(body[i - start]));
            return None;
        }
        let d: i128 = (c as u32 - '0' as u32) as i128;
        proof {
            let t = body.take(i - start + 1);
            assert(t.drop_last() == body.take(i - start));
            assert(t.last() == c);
            assert forall|j: int| 0 <= j < i - start implies is_digit(
                #[trigger] body.take(i - start)[j],
            ) by {
                assert(body.take(i - start)[j] == body[j]);
            }
            lemma_digits_value_nonneg(body.take(i - start));
        }
        if !too_big {
            acc = acc * 10 + d;
            if acc > limit {
                too_big = true;
            }
        }
        i = i + 1;
    }
    assert(body.take(i - start) == body);
    if too_big {
        return None;
    }
    if negative {
        Some((0 - acc) as i64)
    } else {
        Some(acc as i64)
    }
}

proof fn lemma_digits_are_digits(m: nat)
    ensures
        digits(m).len() >= 1,
        forall|i: int| 0 <= i < digits(m).len() ==> is_digit(#[trigger] digits(m)[i]),
    decreases m,
{
    if m >= 10 {
        lemma_digits_are_digits(m / 10);
        let s = digits(m / 10);
        assert forall|i: int| 0 <= i < digits(m).len() implies is_digit(#[trigger] digits(m)[i]) by {
            if i < s.len() {
                assert(digits(m)[i] == s[i]);
            }
        }
    }
}

proof fn lemma_digits_value_of_digits(m: nat)
    ensures
        digits_value(digits(m)) == m,
    decreases m,
{
    if m >= 10 {
        lemma_digits_value_of_digits(m / 10);
        assert(digits(m).drop_last() =~= digits(m / 10));
        assert(digits(m).last() == digit_char(m % 10));
        assert(digit_value(digit_char(m % 10)) == m % 10);
        assert((m / 10) * 10 + m % 10 == m);
        assert(digits(m).len() > 0);
        assert(digits_value(digits(m)) == digits_value(digits(m).drop_last()) * 10 + digit_value(
            digits(m).last(),
        ));
    } else {
        assert(digits(m).drop_last() =~= Seq::<char>::empty());
        assert(digits(m).last() == digit_char(m));
        assert(digit_value(digit_char(m)) == m);
        assert(digits(m).len() > 0);
        assert(digits_value(digits(m)) == digits_value(digits(m).drop_last()) * 10 + digit_value(
            digits(m).last(),
        ));
    }
}

proof fn lemma_untrimmed(s: Seq<char>)
    requires
        s.len() >= 1,
        !is_white(s[0]),
        !is_white(s.last()),
    ensures
        trim(s) == s,
{
}

/// A number written in decimal reads back as the same number: what
/// `decimal` writes, `parse_integer` reads, and trimming changes nothing.
pub proof fn law_decimal_reads_back(n: i64)
    ensures
        trim(decimal(n as int)) == decimal(n as int),
        parse_integer(decimal(n as int)) == Some(n),
{
    let magnitude: nat = if n < 0 {
        (-n) as nat
    } else {
        n as nat
    };
    let ds = digits(magnitude);
    lemma_digits_are_digits(magnitude);
    lemma_digits_value_of_digits(magnitude);
    let s = decimal(n as int);
    assert(is_digit(ds[0]));
    assert(is_digit(ds[ds.len() - 1]));
    if n < 0 {
        assert(s == seq!['-'] + ds);
        assert(s[0] == '-');
        assert(s.last() == ds.last());
        assert(s.drop_first() =~= ds);
        assert(unsigned_part(s) == ds);
    } else {
        assert(s == ds);
        assert(unsigned_part(s) == ds);
    }
    lemma_untrimmed(s);
}

// ---------------------------------------------------------------------------
// The order of names
// ---------------------------------------------------------------------------

/// Lexicographic order by code point, which is the order of `String`: UTF-8
/// keeps the order of code points, so comparing bytes compares characters.
pub open spec fn text_lt(a: Seq<char>, b: Seq<char>) -> bool
    decreases a.len(),
{
    if a.len() == 0 {
        b.len() > 0
    } else if b.len() == 0 {
        false
    } else if a[0] == b[0] {
        text_lt(a.drop_first(), b.drop_first())
    } else {
        (a[0] as int) < (b[0] as int)
    }
}

pub proof fn lemma_text_lt_irreflexive(a: Seq<char>)
    ensures
        !text_lt(a, a),
    decreases a.len(),
{
    if a.len() > 0 {
        lemma_text_lt_irreflexive(a.drop_first());
    }
}

pub proof fn lemma_text_lt_asymmetric(a: Seq<char>, b: Seq<char>)
    ensures
        !(text_lt(a, b) && text_lt(b, a)),
    decreases a.len(),
{
    if a.len() > 0 && b.len() > 0 && a[0] == b[0] {
        lemma_text_lt_asymmetric(a.drop_first(), b.drop_first());
    }
}

pub proof fn lemma_text_lt_transitive(a: Seq<char>, b: Seq<char>, c: Seq<char>)
    requires
        text_lt(a, b),
        text_lt(b, c),
    ensures
        text_lt(a, c),
    decreases a.len(),
{
    if a.len() > 0 && b.len() > 0 && c.len() > 0 && a[0] == b[0] && b[0] == c[0] {
        lemma_text_lt_transitive(a.drop_first(), b.drop_first(), c.drop_first());
    }
}

pub proof fn lemma_text_lt_total(a: Seq<char>, b: Seq<char>)
    ensures
        a == b || text_lt(a, b) || text_lt(b, a),
    decreases a.len(),
{
    if a.len() > 0 && b.len() > 0 {
        if a[0] == b[0] {
            lemma_text_lt_total(a.drop_first(), b.drop_first());
            if a.drop_first() == b.drop_first() {
                assert(a == seq![a[0]] + a.drop_first());
                assert(b == seq![b[0]] + b.drop_first());
            }
        } else {
            assert((a[0] as int) != (b[0] as int));
        }
    } else if a.len() == 0 && b.len() == 0 {
        assert(a == b);
    }
}

/// How two texts are ordered.
pub enum TextOrder {
    Less,
    Same,
    Greater,
}

/// Compare two runs of characters the way `String` orders them.
pub fn compare_texts(a: &[char], b: &[char]) -> (r: TextOrder)
    ensures
        r is Less <==> text_lt(a@, b@),
        r is Same <==> a@ == b@,
        r is Greater <==> text_lt(b@, a@),
{
    let mut i: usize = 0;
    assert(a@.skip(0) == a@);
    assert(b@.skip(0) == b@);
    while i < a.len() && i < b.len() && a[i] == b[i]
        invariant
            i <= a.len(),
            i <= b.len(),
            a@.take(i as int) == b@.take(i as int),
            text_lt(a@, b@) == text_lt(a@.skip(i as int), b@.skip(i as int)),
            text_lt(b@, a@) == text_lt(b@.skip(i as int), a@.skip(i as int)),
        decreases a.len() - i,
    {
        proof {
            let x = a@.skip(i as int);
            let y = b@.skip(i as int);
            assert(x.drop_first() == a@.skip(i + 1));
            assert(y.drop_first() == b@.skip(i + 1));
            assert(a@.take(i + 1) == a@.take(i as int).push(a@[i as int]));
            assert(b@.take(i + 1) == b@.take(i as int).push(b@[i as int]));
        }
        i = i + 1;
    }
    proof {
        lemma_text_lt_asymmetric(a@, b@);
        lemma_text_lt_total(a@, b@);
        lemma_text_lt_irreflexive(a@);
    }
    if i == a.len() && i == b.len() {
        assert(a@ == a@.take(i as int));
        assert(b@ == b@.take(i as int));
        TextOrder::Same
    } else if i == a.len() {
        assert(a@.skip(i as int).len() == 0);
        TextOrder::Less
    } else if i == b.len() {
        assert(b@.skip(i as int).len() == 0);
        TextOrder::Greater
    } else if a[i] < b[i] {
        assert(a@.skip(i as int)[0] == a@[i as int]);
        assert(b@.skip(i as int)[0] == b@[i as int]);
        TextOrder::Less
    } else {
        assert(a@.skip(i as int)[0] == a@[i as int]);
        assert(b@.skip(i as int)[0] == b@[i as int]);
        TextOrder::Greater
    }
}

/// Whether two texts hold the same characters.
pub fn same_text(a: &str, b: &str) -> (r: bool)
    ensures
        r == (a@ == b@),
{
    let x = chars_of(a);
    let y = chars_of(b);
    match compare_texts(x.as_slice(), y.as_slice()) {
        TextOrder::Same => true,
        _ => false,
    }
}

/// Whether `text` begins with `prefix`, as `str::starts_with` decides.
pub open spec fn starts_with(text: Seq<char>, prefix: Seq<char>) -> bool {
    prefix.len() <= text.len() && text.take(prefix.len() as int) == prefix
}

/// A text starts with a prefix exactly when it is that prefix followed by
/// something; so every character of the prefix, the last one included, is
/// the text's character at the same place.
pub proof fn law_starts_with_is_prefix_then_rest(text: Seq<char>, prefix: Seq<char>)
    ensures
        starts_with(text, prefix) <==> exists|rest: Seq<char>| text == prefix + rest,
        starts_with(text, prefix) <==> (prefix.len() <= text.len() && forall|j: int|
            0 <= j < prefix.len() ==> text[j] == prefix[j]),
{
    if starts_with(text, prefix) {
        assert(text =~= prefix + text.skip(prefix.len() as int));
    }
    if exists|rest: Seq<char>| text == prefix + rest {
        let rest = choose|rest: Seq<char>| text == prefix + rest;
        assert(text.take(prefix.len() as int) =~= prefix);
    }
    if prefix.len() <= text.len() && forall|j: int| 0 <= j < prefix.len() ==> text[j] == prefix[j] {
        assert(text.take(prefix.len() as int) =~= prefix);
    }
}

pub fn text_starts_with(text: &str, prefix: &str) -> (r: bool)
    ensures
        r == starts_with(text@, prefix@),
{
    let t = chars_of(text);
    let p = chars_of(prefix);
    if p.len() > t.len() {
        return false;
    }
    let mut i: usize = 0;
    while i < p.len()
        invariant
            p.len() <= t.len(),
            t@ == text@,
            p@ == prefix@,
            i <= p.len(),
            forall|j: int| 0 <= j < i ==> t@[j] == p@[j],
        decreases p.len() - i,
    {
        if t[i] != p[i] {
            assert(t@.take(p.len() as int)[i as int] != p@[i as int]);
            assert(t@.take(p.len() as int) != p@);
            return false;
        }
        i = i + 1;
    }
    assert(t@.take(p.len() as int) == p@);
    true
}

// ---------------------------------------------------------------------------
// Joining explanations
// ---------------------------------------------------------------------------

/// Several reasons read as one sentence, separated by "; and ".
pub open spec fn join_reasons(rs: Seq<Seq<char>>) -> Seq<char>
    decreases rs.len(),
{
    if rs.len() == 0 {
        Seq::empty()
    } else if rs.len() == 1 {
        rs[0]
    } else {
        join_reasons(rs.drop_last()) + "; and "@ + rs.last()
    }
}

} // verus!
