//! A value a Subscription compares against.
//!
//! **Promoted values are never guessed.** A promoted value is read as the type
//! the Subscription states, and coercion happens there, in the open. Inferring
//! that "0012345" is the number 12345 loses a leading zero, and an order number
//! with it.

use vstd::prelude::*;

use crate::text::{
    chars_of, decimal, decimal_text, law_decimal_reads_back, owned, parse_integer,
    parse_integer_in, trim, trim_bounds,
};

verus! {

/// A value a Subscription compares against.
///
/// Three variants deliberately. Decimal is absent until a Contract needs one,
/// because floating point is the wrong answer for money and a wrong decimal is
/// worse than an absent one.
#[derive(Clone, Debug, PartialEq, Eq)]
pub enum Value {
    Text(String),
    Integer(i64),
    Boolean(bool),
}

/// What a [`Value`] stands for: its text as characters, or its number, or its
/// truth value.
pub enum Datum {
    Text(Seq<char>),
    Integer(i64),
    Boolean(bool),
}

impl View for Value {
    type V = Datum;

    open spec fn view(&self) -> Datum {
        match self {
            Value::Text(text) => Datum::Text(text@),
            Value::Integer(number) => Datum::Integer(*number),
            Value::Boolean(flag) => Datum::Boolean(*flag),
        }
    }
}

/// The name of a value's type.
pub open spec fn kind_of(d: Datum) -> Seq<char> {
    match d {
        Datum::Text(_) => "text"@,
        Datum::Integer(_) => "integer"@,
        Datum::Boolean(_) => "boolean"@,
    }
}

/// A truth value as it is written.
pub open spec fn flag_text(flag: bool) -> Seq<char> {
    if flag {
        "true"@
    } else {
        "false"@
    }
}

/// A value as an explanation shows it: text quoted, so an empty value is still
/// visible; a number in decimal; a truth value as `true` or `false`.
pub open spec fn shown(d: Datum) -> Seq<char> {
    match d {
        Datum::Text(text) => "'"@ + text + "'"@,
        Datum::Integer(number) => decimal(number as int),
        Datum::Boolean(flag) => flag_text(flag),
    }
}

pub fn flag_str(flag: bool) -> (s: &'static str)
    ensures
        s@ == flag_text(flag),
{
    if flag {
        "true"
    } else {
        "false"
    }
}

impl Value {
    /// The name of this value's type, for explanations.
    pub fn kind(&self) -> (k: &'static str)
        ensures
            k@ == kind_of(self@),
    {
        match self {
            Value::Text(_) => "text",
            Value::Integer(_) => "integer",
            Value::Boolean(_) => "boolean",
        }
    }

    /// Render for an explanation, quoted so an empty value is still visible.
    pub fn show(&self) -> (s: String)
        ensures
            s@ == shown(self@),
    {
        match self {
            Value::Text(text) => {
                let mut s = owned("'");
                s.append(text.as_str());
                s.append("'");
                s
            },
            Value::Integer(number) => decimal_text(*number),
            Value::Boolean(flag) => owned(flag_str(*flag)),
        }
    }

    /// A copy of this value that is the same value.
    pub fn duplicate(&self) -> (v: Value)
        ensures
            v == *self,
    {
        match self {
            Value::Text(text) => Value::Text(text.clone()),
            Value::Integer(number) => Value::Integer(*number),
            Value::Boolean(flag) => Value::Boolean(*flag),
        }
    }
}

/// An ASCII capital letter in lower case; every other character unchanged, as
/// `str::to_ascii_lowercase` maps it.
pub open spec fn ascii_lower(c: char) -> char {
    if 'A' as int <= c as int <= 'Z' as int {
        (c as int + 32) as char
    } else {
        c
    }
}

/// A text read as a truth value: `true` or `false` in any ASCII case, after
/// surrounding white space is trimmed.
pub open spec fn read_flag(text: Seq<char>) -> Option<bool> {
    let word = trim(text).map_values(|c: char| ascii_lower(c));
    if word == "true"@ {
        Some(true)
    } else if word == "false"@ {
        Some(false)
    } else {
        None
    }
}

/// A promoted text read as the type the Subscription asked for, or the
/// sentence that says why it will not read as that type.
pub open spec fn coerced(promoted: Seq<char>, wanted: Datum, property: Seq<char>) -> Result<
    Datum,
    Seq<char>,
> {
    match wanted {
        Datum::Text(_) => Ok(Datum::Text(promoted)),
        Datum::Integer(_) => match parse_integer(trim(promoted)) {
            Some(number) => Ok(Datum::Integer(number)),
            None => Err(property + " is '"@ + promoted + "', which is not an integer"@),
        },
        Datum::Boolean(_) => match read_flag(promoted) {
            Some(flag) => Ok(Datum::Boolean(flag)),
            None => Err(property + " is '"@ + promoted + "', which is not true or false"@),
        },
    }
}

/// The meaning of a coercion's outcome.
pub open spec fn coercion_view(r: Result<Value, String>) -> Result<Datum, Seq<char>> {
    match r {
        Ok(v) => Ok(v@),
        Err(e) => Err(e@),
    }
}

/// Whether `s[lo..hi]`, in ASCII lower case, is `word`.
fn lowered_is(s: &Vec<char>, lo: usize, hi: usize, word: &str) -> (r: bool)
    requires
        lo <= hi <= s.len(),
    ensures
        r == (s@.subrange(lo as int, hi as int).map_values(|c: char| ascii_lower(c)) == word@),
{
    let ghost lowered = s@.subrange(lo as int, hi as int).map_values(|c: char| ascii_lower(c));
    let w = chars_of(word);
    if hi - lo != w.len() {
        assert(lowered.len() != word@.len());
        return false;
    }
    let mut i: usize = 0;
    while i < w.len()
        invariant
            lo <= hi <= s.len(),
            hi - lo == w.len(),
            w@ == word@,
            i <= w.len(),
            lowered == s@.subrange(lo as int, hi as int).map_values(|c: char| ascii_lower(c)),
            forall|j: int| 0 <= j < i ==> lowered[j] == w@[j],
        decreases w.len() - i,
    {
        let c = s[lo + i];
        let l = if 'A' <= c && c <= 'Z' {
            ((c as u32) + 32) as u8 as char
        } else {
            c
        };
        assert(lowered[i as int] == ascii_lower(s@[lo + i]));
        if l != w[i] {
            assert(lowered[i as int] != word@[i as int]);
            assert(lowered != word@);
            return false;
        }
        i = i + 1;
    }
    assert(lowered == word@);
    true
}

/// Read a promoted text value as the type the Subscription asked for.
///
/// The Subscription carries the intent, so this never guesses. When the text
/// will not read as that type the failure names both, which is the point:
/// "Amount is 'about ten', which is not an integer" is a fixable sentence and
/// "no match" is not.
pub fn coerce(promoted: &str, wanted: &Value, property: &str) -> (r: Result<Value, String>)
    ensures
        coercion_view(r) == coerced(promoted@, wanted@, property@),
{
    match wanted {
        Value::Text(_) => Ok(Value::Text(owned(promoted))),
        Value::Integer(_) => {
            let chars = chars_of(promoted);
            let (lo, hi) = trim_bounds(&chars);
            match parse_integer_in(&chars, lo, hi) {
                Some(number) => Ok(Value::Integer(number)),
                None => {
                    let mut e = owned(property);
                    e.append(" is '");
                    e.append(promoted);
                    e.append("', which is not an integer");
                    Err(e)
                },
            }
        },
        Value::Boolean(_) => {
            let chars = chars_of(promoted);
            let (lo, hi) = trim_bounds(&chars);
            if lowered_is(&chars, lo, hi, "true") {
                Ok(Value::Boolean(true))
            } else if lowered_is(&chars, lo, hi, "false") {
                Ok(Value::Boolean(false))
            } else {
                let mut e = owned(property);
                e.append(" is '");
                e.append(promoted);
                e.append("', which is not true or false");
                Err(e)
            }
        },
    }
}

/// `ascii_lower` lowers every ASCII capital letter, 'A' through 'Z', to the
/// letter 32 code points above it, and leaves every other character as it is.
pub proof fn law_ascii_lower_lowers_every_capital(c: char)
    ensures
        'A' as int <= c as int <= 'Z' as int ==> ascii_lower(c) as int == c as int + 32,
        !('A' as int <= c as int <= 'Z' as int) ==> ascii_lower(c) == c,
{
}

/// A word read as a truth value: every text whose trimmed characters spell
/// `false`, each letter in either case, reads as false; and likewise `true`.
pub proof fn law_flags_read_in_any_case(text: Seq<char>)
    ensures
        ({
            let word = trim(text);
            let lower = "false"@;
            (word.len() == 5 && forall|i: int|
                0 <= i < 5 ==> (word[i] == lower[i] || word[i] as int + 32 == lower[i] as int))
                ==> read_flag(text) == Some(false)
        }),
        ({
            let word = trim(text);
            let lower = "true"@;
            (word.len() == 4 && forall|i: int|
                0 <= i < 4 ==> (word[i] == lower[i] || word[i] as int + 32 == lower[i] as int))
                ==> read_flag(text) == Some(true)
        }),
{
    reveal_strlit("false");
    reveal_strlit("true");
    let word = trim(text);
    let lowered = word.map_values(|c: char| ascii_lower(c));
    if word.len() == 5 && forall|i: int|
        0 <= i < 5 ==> (word[i] == "false"@[i] || word[i] as int + 32 == "false"@[i] as int) {
        assert forall|i: int| 0 <= i < 5 implies lowered[i] == "false"@[i] by {
            assert(word[i] == "false"@[i] || word[i] as int + 32 == "false"@[i] as int);
        }
        assert(lowered =~= "false"@);
        assert(lowered[0] != "true"@[0]);
    }
    if word.len() == 4 && forall|i: int|
        0 <= i < 4 ==> (word[i] == "true"@[i] || word[i] as int + 32 == "true"@[i] as int) {
        assert forall|i: int| 0 <= i < 4 implies lowered[i] == "true"@[i] by {
            assert(word[i] == "true"@[i] || word[i] as int + 32 == "true"@[i] as int);
        }
        assert(lowered =~= "true"@);
    }
}

/// A number as an explanation shows it reads back, as an integer, as the same
/// number.
pub proof fn law_shown_integer_reads_back(n: i64, wanted: i64, property: Seq<char>)
    ensures
        coerced(shown(Datum::Integer(n)), Datum::Integer(wanted), property) == Ok::<
            Datum,
            Seq<char>,
        >(Datum::Integer(n)),
{
    law_decimal_reads_back(n);
}

/// A truth value as an explanation shows it reads back, as a truth value, as
/// the same truth value.
pub proof fn law_shown_flag_reads_back(flag: bool, wanted: bool, property: Seq<char>)
    ensures
        coerced(shown(Datum::Boolean(flag)), Datum::Boolean(wanted), property) == Ok::<
            Datum,
            Seq<char>,
        >(Datum::Boolean(flag)),
{
    reveal_strlit("true");
    reveal_strlit("false");
    let t = flag_text(flag);
    assert(trim(t) == t);
    assert(t.map_values(|c: char| ascii_lower(c)) =~= t);
    if !flag {
        assert(t != "true"@);
    }
}

} // verus!
