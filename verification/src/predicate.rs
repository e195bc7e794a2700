//! The filter of a Subscription, and what one test of it decided.
//!
//! A filter reads the promoted set and nothing else. Each test either passes
//! or fails with a sentence that says why, so a decline explains itself.

use vstd::prelude::*;

use crate::promoted::{views_of, Promoted};
use crate::text::{
    parse_integer, trim, chars_of, compare_texts, join_reasons, owned, starts_with, text_lt, text_starts_with,
    TextOrder,
};
use crate::value::{coerce, coerced, shown, Datum, Value};

verus! {

/// A condition over the promoted properties of one Message.
#[derive(Debug, PartialEq, Eq)]
pub enum Predicate {
    /// The property, read as the type of `value`, equals `value`.
    Equals { property: String, value: Value },
    /// The property, read as the type of `value`, is greater than `value`.
    GreaterThan { property: String, value: Value },
    /// The property's text begins with `prefix`.
    StartsWith { property: String, prefix: String },
    /// Something promoted the property.
    Exists { property: String },
    /// Every condition holds; an empty list takes everything.
    All(Vec<Predicate>),
    /// Some condition holds; an empty list takes nothing.
    Any(Vec<Predicate>),
    /// The condition does not hold.
    Not(Box<Predicate>),
}

/// What one test of a filter decided.
#[derive(Clone, Debug, PartialEq, Eq)]
pub enum Test {
    Pass,
    /// The filter declined, and the sentence says why.
    Fail(String),
}

/// What a [`Test`] stands for.
pub enum Outcome {
    Pass,
    Fail(Seq<char>),
}

impl View for Test {
    type V = Outcome;

    open spec fn view(&self) -> Outcome {
        match self {
            Test::Pass => Outcome::Pass,
            Test::Fail(reason) => Outcome::Fail(reason@),
        }
    }
}

impl Test {
    /// Whether the filter took the Message.
    pub fn passed(&self) -> (r: bool)
        ensures
            r == (self@ is Pass),
    {
        match self {
            Test::Pass => true,
            Test::Fail(_) => false,
        }
    }

    /// Why the filter declined, if it did.
    pub fn reason(&self) -> (r: Option<&str>)
        ensures
            match self@ {
                Outcome::Pass => r is None,
                Outcome::Fail(why) => r matches Some(text) && text@ == why,
            },
    {
        match self {
            Test::Pass => None,
            Test::Fail(why) => Some(why.as_str()),
        }
    }
}

/// The sentence for a property nothing promoted.
pub open spec fn missing(property: Seq<char>) -> Seq<char> {
    "nothing promoted "@ + property
}

/// The sentence for a Not whose condition held.
pub open spec fn excluded() -> Seq<char> {
    "the excluded condition held"@
}

/// The sentence for an Any with no conditions.
pub open spec fn no_alternatives() -> Seq<char> {
    "there was no condition to meet"@
}

/// Whether `actual` is greater than `wanted`: numbers by value, texts in the
/// order of `String`, and `true` above `false`.
pub open spec fn greater(actual: Datum, wanted: Datum) -> bool {
    match (actual, wanted) {
        (Datum::Integer(a), Datum::Integer(b)) => a > b,
        (Datum::Text(a), Datum::Text(b)) => text_lt(b, a),
        (Datum::Boolean(a), Datum::Boolean(b)) => a && !b,
        _ => false,
    }
}

/// The outcome of comparing a property with a value, once it has been read:
/// equality, or with `above` the order of [`greater`].
pub open spec fn compared(
    promoted: Map<Seq<char>, Seq<char>>,
    property: Seq<char>,
    wanted: Datum,
    above: bool,
) -> Outcome {
    if !promoted.contains_key(property) {
        Outcome::Fail(missing(property))
    } else {
        match coerced(promoted[property], wanted, property) {
            Err(why) => Outcome::Fail(why),
            Ok(actual) => if (above && greater(actual, wanted)) || (!above && actual == wanted) {
                Outcome::Pass
            } else {
                Outcome::Fail(
                    property + " is "@ + shown(actual) + (if above {
                        ", not greater than "@
                    } else {
                        ", not "@
                    }) + shown(wanted),
                )
            },
        }
    }
}

/// What testing a filter against a promoted set decides.
pub open spec fn outcome(p: Predicate, promoted: Map<Seq<char>, Seq<char>>) -> Outcome
    decreases p,
{
    match p {
        Predicate::Equals { property, value } => compared(promoted, property@, value@, false),
        Predicate::GreaterThan { property, value } => compared(promoted, property@, value@, true),
        Predicate::StartsWith { property, prefix } => if !promoted.contains_key(property@) {
            Outcome::Fail(missing(property@))
        } else if starts_with(promoted[property@], prefix@) {
            Outcome::Pass
        } else {
            Outcome::Fail(
                property@ + " is '"@ + promoted[property@] + "', which does not start with '"@
                    + prefix@ + "'"@,
            )
        },
        Predicate::Exists { property } => if promoted.contains_key(property@) {
            Outcome::Pass
        } else {
            Outcome::Fail(missing(property@))
        },
        Predicate::All(ps) => all_outcome(ps@, promoted),
        Predicate::Any(ps) => match any_reasons(ps@, promoted) {
            None => Outcome::Pass,
            Some(reasons) => if reasons.len() == 0 {
                Outcome::Fail(no_alternatives())
            } else {
                Outcome::Fail(join_reasons(reasons))
            },
        },
        Predicate::Not(q) => match outcome(*q, promoted) {
            Outcome::Pass => Outcome::Fail(excluded()),
            Outcome::Fail(_) => Outcome::Pass,
        },
    }
}

/// Every condition in turn: the first decline is the answer, and if none
/// declines they all pass.
pub open spec fn all_outcome(ps: Seq<Predicate>, promoted: Map<Seq<char>, Seq<char>>) -> Outcome
    decreases ps,
{
    if ps.len() == 0 {
        Outcome::Pass
    } else {
        match all_outcome(ps.drop_last(), promoted) {
            Outcome::Pass => outcome(ps.last(), promoted),
            declined => declined,
        }
    }
}

/// The reasons every condition gave for declining, in order, or `None` when
/// one of them passed.
pub open spec fn any_reasons(ps: Seq<Predicate>, promoted: Map<Seq<char>, Seq<char>>) -> Option<
    Seq<Seq<char>>,
>
    decreases ps,
{
    if ps.len() == 0 {
        Some(Seq::empty())
    } else {
        match any_reasons(ps.drop_last(), promoted) {
            None => None,
            Some(reasons) => match outcome(ps.last(), promoted) {
                Outcome::Pass => None,
                Outcome::Fail(why) => Some(reasons.push(why)),
            },
        }
    }
}

/// Every property name a filter reads, in the order it reads them.
pub open spec fn names_read(p: Predicate) -> Seq<Seq<char>>
    decreases p,
{
    match p {
        Predicate::Equals { property, value: _ } => seq![property@],
        Predicate::GreaterThan { property, value: _ } => seq![property@],
        Predicate::StartsWith { property, prefix: _ } => seq![property@],
        Predicate::Exists { property } => seq![property@],
        Predicate::All(ps) => names_read_all(ps@),
        Predicate::Any(ps) => names_read_all(ps@),
        Predicate::Not(q) => names_read(*q),
    }
}

/// The names several filters read, one filter after another.
pub open spec fn names_read_all(ps: Seq<Predicate>) -> Seq<Seq<char>>
    decreases ps,
{
    if ps.len() == 0 {
        Seq::empty()
    } else {
        names_read_all(ps.drop_last()) + names_read(ps.last())
    }
}

proof fn lemma_all_declined(ps: Seq<Predicate>, promoted: Map<Seq<char>, Seq<char>>, k: int)
    requires
        0 <= k <= ps.len(),
        all_outcome(ps.take(k), promoted) is Fail,
    ensures
        all_outcome(ps, promoted) == all_outcome(ps.take(k), promoted),
    decreases ps.len() - k,
{
    if k < ps.len() {
        assert(ps.take(k + 1).drop_last() =~= ps.take(k));
        lemma_all_declined(ps, promoted, k + 1);
    } else {
        assert(ps.take(k) =~= ps);
    }
}

proof fn lemma_any_taken(ps: Seq<Predicate>, promoted: Map<Seq<char>, Seq<char>>, k: int)
    requires
        0 <= k <= ps.len(),
        any_reasons(ps.take(k), promoted) is None,
    ensures
        any_reasons(ps, promoted) is None,
    decreases ps.len() - k,
{
    if k < ps.len() {
        assert(ps.take(k + 1).drop_last() =~= ps.take(k));
        lemma_any_taken(ps, promoted, k + 1);
    } else {
        assert(ps.take(k) =~= ps);
    }
}

/// Whether two values are the same value.
fn same_value(a: &Value, b: &Value) -> (r: bool)
    ensures
        r == (a@ == b@),
{
    match (a, b) {
        (Value::Text(x), Value::Text(y)) => *x == *y,
        (Value::Integer(x), Value::Integer(y)) => *x == *y,
        (Value::Boolean(x), Value::Boolean(y)) => *x == *y,
        _ => false,
    }
}

/// Whether `actual` is greater than `wanted`, as [`greater`] orders them.
fn is_greater(actual: &Value, wanted: &Value) -> (r: bool)
    ensures
        r == greater(actual@, wanted@),
{
    match (actual, wanted) {
        (Value::Integer(a), Value::Integer(b)) => *a > *b,
        (Value::Text(a), Value::Text(b)) => {
            let x = chars_of(b.as_str());
            let y = chars_of(a.as_str());
            match compare_texts(x.as_slice(), y.as_slice()) {
                TextOrder::Less => true,
                _ => false,
            }
        },
        (Value::Boolean(a), Value::Boolean(b)) => *a && !*b,
        _ => false,
    }
}

/// The sentence for a property nothing promoted.
fn missing_text(property: &str) -> (r: String)
    ensures
        r@ == missing(property@),
{
    let mut r = owned("nothing promoted ");
    r.append(property);
    r
}

/// Compare a promoted property with a value, read as the value's type.
fn compare_property(promoted: &Promoted, property: &str, wanted: &Value, above: bool) -> (r: Test)
    ensures
        r@ == compared(promoted@, property@, wanted@, above),
{
    match promoted.get(property) {
        None => Test::Fail(missing_text(property)),
        Some(text) => match coerce(text, wanted, property) {
            Err(why) => Test::Fail(why),
            Ok(actual) => {
                let holds = if above {
                    is_greater(&actual, wanted)
                } else {
                    same_value(&actual, wanted)
                };
                if holds {
                    Test::Pass
                } else {
                    let mut why = owned(property);
                    why.append(" is ");
                    let shown_actual = actual.show();
                    why.append(shown_actual.as_str());
                    if above {
                        why.append(", not greater than ");
                    } else {
                        why.append(", not ");
                    }
                    let shown_wanted = wanted.show();
                    why.append(shown_wanted.as_str());
                    Test::Fail(why)
                }
            },
        },
    }
}

impl Predicate {
    /// Test the filter against one Message's promoted set.
    pub fn test(&self, promoted: &Promoted) -> (r: Test)
        ensures
            r@ == outcome(*self, promoted@),
        decreases self,
    {
        match self {
            Predicate::Equals { property, value } => compare_property(
                promoted,
                property.as_str(),
                value,
                false,
            ),
            Predicate::GreaterThan { property, value } => compare_property(
                promoted,
                property.as_str(),
                value,
                true,
            ),
            Predicate::StartsWith { property, prefix } => match promoted.get(property.as_str()) {
                None => Test::Fail(missing_text(property.as_str())),
                Some(text) => if text_starts_with(text, prefix.as_str()) {
                    Test::Pass
                } else {
                    let mut why = owned(property.as_str());
                    why.append(" is '");
                    why.append(text);
                    why.append("', which does not start with '");
                    why.append(prefix.as_str());
                    why.append("'");
                    Test::Fail(why)
                },
            },
            Predicate::Exists { property } => match promoted.get(property.as_str()) {
                None => Test::Fail(missing_text(property.as_str())),
                Some(_) => Test::Pass,
            },
            Predicate::All(ps) => {
                let n = ps.len();
                let mut i: usize = 0;
                assert(ps@.take(0).len() == 0);
                while i < n
                    invariant
                        n == ps.len(),
                        i <= n,
                        all_outcome(ps@.take(i as int), promoted@) is Pass,
                        *self == Predicate::All(*ps),
                    decreases n - i,
                {
                    proof {
                        assert(decreases_to!(*self => ps@[i as int]));
                    }
                    let t = ps[i].test(promoted);
                    proof {
                        assert(ps@.take(i + 1).drop_last() =~= ps@.take(i as int));
                        assert(ps@.take(i + 1).last() == ps@[i as int]);
                    }
                    match t {
                        Test::Pass => {},
                        Test::Fail(why) => {
                            proof {
                                lemma_all_declined(ps@, promoted@, i + 1);
                            }
                            return Test::Fail(why);
                        },
                    }
                    i = i + 1;
                }
                assert(ps@.take(n as int) =~= ps@);
                Test::Pass
            },
            Predicate::Any(ps) => {
                let n = ps.len();
                let mut i: usize = 0;
                let mut joined = String::new();
                let ghost mut reasons: Seq<Seq<char>> = Seq::empty();
                assert(ps@.take(0).len() == 0);
                while i < n
                    invariant
                        n == ps.len(),
                        i <= n,
                        any_reasons(ps@.take(i as int), promoted@) == Some(reasons),
                        reasons.len() == i,
                        joined@ == join_reasons(reasons),
                        *self == Predicate::Any(*ps),
                    decreases n - i,
                {
                    proof {
                        assert(decreases_to!(*self => ps@[i as int]));
                    }
                    let t = ps[i].test(promoted);
                    proof {
                        assert(ps@.take(i + 1).drop_last() =~= ps@.take(i as int));
                        assert(ps@.take(i + 1).last() == ps@[i as int]);
                    }
                    match t {
                        Test::Pass => {
                            proof {
                                lemma_any_taken(ps@, promoted@, i + 1);
                            }
                            return Test::Pass;
                        },
                        Test::Fail(why) => {
                            if i > 0 {
                                joined.append("; and ");
                            }
                            joined.append(why.as_str());
                            proof {
                                let more = reasons.push(why@);
                                assert(more.drop_last() =~= reasons);
                                reasons = more;
                            }
                        },
                    }
                    i = i + 1;
                }
                assert(ps@.take(n as int) =~= ps@);
                if n == 0 {
                    Test::Fail(owned("there was no condition to meet"))
                } else {
                    Test::Fail(joined)
                }
            },
            Predicate::Not(q) => match q.test(promoted) {
                Test::Pass => Test::Fail(owned("the excluded condition held")),
                Test::Fail(_) => Test::Pass,
            },
        }
    }
}

impl Predicate {
    /// The property, read as the type of `value`, equals `value`.
    pub fn equals(property: &str, value: Value) -> (p: Predicate)
        ensures
            p matches Predicate::Equals { property: name, value: v } && name@ == property@ && v
                == value,
    {
        Predicate::Equals { property: owned(property), value }
    }

    /// The property, read as the type of `value`, is greater than `value`.
    pub fn greater_than(property: &str, value: Value) -> (p: Predicate)
        ensures
            p matches Predicate::GreaterThan { property: name, value: v } && name@ == property@
                && v == value,
    {
        Predicate::GreaterThan { property: owned(property), value }
    }

    /// The property's text begins with `prefix`, read as text whatever it holds.
    pub fn starts_with(property: &str, prefix: &str) -> (p: Predicate)
        ensures
            p matches Predicate::StartsWith { property: name, prefix: start } && name@
                == property@ && start@ == prefix@,
    {
        Predicate::StartsWith { property: owned(property), prefix: owned(prefix) }
    }

    /// Something promoted the property.
    pub fn present(property: &str) -> (p: Predicate)
        ensures
            p matches Predicate::Exists { property: name } && name@ == property@,
    {
        Predicate::Exists { property: owned(property) }
    }

    /// Every condition holds.
    pub fn all(conditions: Vec<Predicate>) -> (p: Predicate)
        ensures
            p == Predicate::All(conditions),
    {
        Predicate::All(conditions)
    }

    /// Some condition holds.
    pub fn any(conditions: Vec<Predicate>) -> (p: Predicate)
        ensures
            p == Predicate::Any(conditions),
    {
        Predicate::Any(conditions)
    }

    /// The condition does not hold.
    pub fn negate(condition: Predicate) -> (p: Predicate)
        ensures
            p == Predicate::Not(Box::new(condition)),
    {
        Predicate::Not(Box::new(condition))
    }

    /// The filter that takes every Message: an All of nothing.
    pub fn everything() -> (p: Predicate)
        ensures
            p matches Predicate::All(conditions) && conditions@.len() == 0,
    {
        Predicate::All(Vec::new())
    }

    /// Every property name the filter reads, in the order it reads them, so a
    /// deploy-time check can hold each against what will be promoted.
    pub fn referenced_names(&self) -> (names: Vec<&str>)
        ensures
            views_of(names@) == names_read(*self),
        decreases self, 1nat,
    {
        match self {
            Predicate::Equals { property, value: _ } => {
                let mut names = Vec::new();
                names.push(property.as_str());
                assert(views_of(names@) =~= names_read(*self));
                names
            },
            Predicate::GreaterThan { property, value: _ } => {
                let mut names = Vec::new();
                names.push(property.as_str());
                assert(views_of(names@) =~= names_read(*self));
                names
            },
            Predicate::StartsWith { property, prefix: _ } => {
                let mut names = Vec::new();
                names.push(property.as_str());
                assert(views_of(names@) =~= names_read(*self));
                names
            },
            Predicate::Exists { property } => {
                let mut names = Vec::new();
                names.push(property.as_str());
                assert(views_of(names@) =~= names_read(*self));
                names
            },
            Predicate::All(ps) => Self::names_of_all(ps),
            Predicate::Any(ps) => Self::names_of_all(ps),
            Predicate::Not(q) => q.referenced_names(),
        }
    }

    /// The names read by each of `ps`, one after another.
    fn names_of_all(ps: &Vec<Predicate>) -> (names: Vec<&str>)
        ensures
            views_of(names@) == names_read_all(ps@),
        decreases ps, 0nat,
    {
        let mut names: Vec<&str> = Vec::new();
        let n = ps.len();
        let mut i: usize = 0;
        assert(ps@.take(0) =~= Seq::<Predicate>::empty());
        assert(views_of(names@) =~= Seq::<Seq<char>>::empty());
        while i < n
            invariant
                n == ps.len(),
                i <= n,
                views_of(names@) == names_read_all(ps@.take(i as int)),
            decreases n - i,
        {
            proof {
                assert(decreases_to!(*ps => ps@[i as int]));
            }
            let mut more = ps[i].referenced_names();
            let ghost before = names@;
            let ghost added = more@;
            names.append(&mut more);
            proof {
                assert(ps@.take(i + 1).drop_last() =~= ps@.take(i as int));
                assert(ps@.take(i + 1).last() == ps@[i as int]);
                assert(views_of(names@) =~= views_of(before) + views_of(added));
            }
            i = i + 1;
        }
        assert(ps@.take(n as int) =~= ps@);
        names
    }
}

/// Two promoted sets agree on a name: both lack it, or both hold the same text.
pub open spec fn agree_on(
    m1: Map<Seq<char>, Seq<char>>,
    m2: Map<Seq<char>, Seq<char>>,
    name: Seq<char>,
) -> bool {
    &&& m1.contains_key(name) == m2.contains_key(name)
    &&& m1.contains_key(name) ==> m1[name] == m2[name]
}

/// Matching reads the promoted set and nothing else, and of it only the names
/// the filter reads: two promoted sets that agree on those names get the same
/// outcome, reasons included.
pub proof fn law_test_reads_only_named_properties(
    p: Predicate,
    m1: Map<Seq<char>, Seq<char>>,
    m2: Map<Seq<char>, Seq<char>>,
)
    requires
        forall|k: int| 0 <= k < names_read(p).len() ==> agree_on(m1, m2, #[trigger] names_read(p)[k]),
    ensures
        outcome(p, m1) == outcome(p, m2),
    decreases p, 1nat,
{
    match p {
        Predicate::Equals { property, value: _ } => {
            assert(agree_on(m1, m2, names_read(p)[0]));
        },
        Predicate::GreaterThan { property, value: _ } => {
            assert(agree_on(m1, m2, names_read(p)[0]));
        },
        Predicate::StartsWith { property, prefix: _ } => {
            assert(agree_on(m1, m2, names_read(p)[0]));
        },
        Predicate::Exists { property } => {
            assert(agree_on(m1, m2, names_read(p)[0]));
        },
        Predicate::All(ps) => {
            assert forall|k: int| 0 <= k < names_read_all(ps@).len() implies agree_on(
                m1,
                m2,
                #[trigger] names_read_all(ps@)[k],
            ) by {
                assert(names_read(p)[k] == names_read_all(ps@)[k]);
            }
            lemma_conditions_read_only_named(ps@, m1, m2);
        },
        Predicate::Any(ps) => {
            assert forall|k: int| 0 <= k < names_read_all(ps@).len() implies agree_on(
                m1,
                m2,
                #[trigger] names_read_all(ps@)[k],
            ) by {
                assert(names_read(p)[k] == names_read_all(ps@)[k]);
            }
            lemma_conditions_read_only_named(ps@, m1, m2);
        },
        Predicate::Not(q) => {
            assert forall|k: int| 0 <= k < names_read(*q).len() implies agree_on(
                m1,
                m2,
                #[trigger] names_read(*q)[k],
            ) by {
                assert(names_read(p)[k] == names_read(*q)[k]);
            }
            law_test_reads_only_named_properties(*q, m1, m2);
        },
    }
}

proof fn lemma_conditions_read_only_named(
    ps: Seq<Predicate>,
    m1: Map<Seq<char>, Seq<char>>,
    m2: Map<Seq<char>, Seq<char>>,
)
    requires
        forall|k: int|
            0 <= k < names_read_all(ps).len() ==> agree_on(m1, m2, #[trigger] names_read_all(ps)[k]),
    ensures
        all_outcome(ps, m1) == all_outcome(ps, m2),
        any_reasons(ps, m1) == any_reasons(ps, m2),
    decreases ps, 0nat,
{
    if ps.len() > 0 {
        let front = names_read_all(ps.drop_last());
        let back = names_read(ps.last());
        assert(names_read_all(ps) == front + back);
        assert forall|k: int| 0 <= k < front.len() implies agree_on(m1, m2, #[trigger] front[k]) by {
            assert(names_read_all(ps)[k] == front[k]);
        }
        assert forall|k: int| 0 <= k < back.len() implies agree_on(m1, m2, #[trigger] back[k]) by {
            assert(names_read_all(ps)[front.len() + k] == back[k]);
        }
        lemma_conditions_read_only_named(ps.drop_last(), m1, m2);
        law_test_reads_only_named_properties(ps.last(), m1, m2);
    }
}

/// An All passes exactly when every one of its conditions passes; so an
/// empty All takes everything.
pub proof fn law_all_passes_when_every_condition_passes(
    ps: Seq<Predicate>,
    m: Map<Seq<char>, Seq<char>>,
)
    ensures
        (all_outcome(ps, m) is Pass) <==> forall|i: int|
            0 <= i < ps.len() ==> #[trigger] outcome(ps[i], m) is Pass,
    decreases ps.len(),
{
    if ps.len() > 0 {
        law_all_passes_when_every_condition_passes(ps.drop_last(), m);
        if all_outcome(ps, m) is Pass {
            assert forall|i: int| 0 <= i < ps.len() implies #[trigger] outcome(ps[i], m) is Pass by {
                if i < ps.len() - 1 {
                    assert(ps.drop_last()[i] == ps[i]);
                }
            }
        }
        if forall|i: int| 0 <= i < ps.len() ==> #[trigger] outcome(ps[i], m) is Pass {
            assert forall|i: int| 0 <= i < ps.drop_last().len() implies #[trigger] outcome(
                ps.drop_last()[i],
                m,
            ) is Pass by {
                assert(ps.drop_last()[i] == ps[i]);
                assert(outcome(ps[i], m) is Pass);
            }
            assert(outcome(ps[ps.len() - 1], m) is Pass);
        }
    }
}

/// An Any passes exactly when one of its conditions passes; so an empty Any
/// takes nothing. When it declines, it gives every condition's reason.
pub proof fn law_any_passes_when_some_condition_passes(
    ps: Seq<Predicate>,
    m: Map<Seq<char>, Seq<char>>,
)
    ensures
        (any_reasons(ps, m) is None) <==> exists|i: int|
            0 <= i < ps.len() && #[trigger] outcome(ps[i], m) is Pass,
        any_reasons(ps, m) matches Some(reasons) ==> reasons.len() == ps.len() && forall|i: int|
            0 <= i < ps.len() ==> #[trigger] outcome(ps[i], m) == Outcome::Fail(reasons[i]),
    decreases ps.len(),
{
    if ps.len() > 0 {
        let rest = ps.drop_last();
        law_any_passes_when_some_condition_passes(rest, m);
        assert(ps[ps.len() - 1] == ps.last());
        if outcome(ps.last(), m) is Pass {
            assert(outcome(ps[ps.len() - 1], m) is Pass);
        }
        if exists|i: int| 0 <= i < rest.len() && #[trigger] outcome(rest[i], m) is Pass {
            let i = choose|i: int| 0 <= i < rest.len() && #[trigger] outcome(rest[i], m) is Pass;
            assert(ps[i] == rest[i]);
        }
        if exists|i: int| 0 <= i < ps.len() && #[trigger] outcome(ps[i], m) is Pass {
            let i = choose|i: int| 0 <= i < ps.len() && #[trigger] outcome(ps[i], m) is Pass;
            if i < ps.len() - 1 {
                assert(rest[i] == ps[i]);
            }
        }
        if any_reasons(ps, m) is Some {
            let reasons = any_reasons(ps, m)->0;
            let earlier = any_reasons(rest, m)->0;
            assert forall|i: int| 0 <= i < ps.len() implies #[trigger] outcome(ps[i], m)
                == Outcome::Fail(reasons[i]) by {
                if i < ps.len() - 1 {
                    assert(rest[i] == ps[i]);
                    assert(outcome(rest[i], m) == Outcome::Fail(earlier[i]));
                }
            }
        }
    }
}

/// Integers compare as numbers: one integer is greater than another exactly
/// when it is the larger number, negative numbers included.
pub proof fn law_integers_compare_as_numbers(a: i64, b: i64)
    ensures
        greater(Datum::Integer(a), Datum::Integer(b)) <==> (a as int) > (b as int),
{
}

/// A GreaterThan with an integer passes exactly when the promoted text reads,
/// as `i64::from_str` reads it after trimming, as a number larger than the
/// Subscription's.
pub proof fn law_greater_than_an_integer(
    property: String,
    bound: i64,
    promoted: Map<Seq<char>, Seq<char>>,
)
    ensures
        (outcome(Predicate::GreaterThan { property, value: Value::Integer(bound) }, promoted) is Pass)
            <==> (promoted.contains_key(property@) && exists|n: i64|
            parse_integer(trim(promoted[property@])) == Some(n) && (n as int) > (bound as int)),
{
    if promoted.contains_key(property@) {
        match parse_integer(trim(promoted[property@])) {
            Some(n) => {},
            None => {},
        }
    }
}

/// An Equals passes exactly when the property is promoted and its text reads,
/// as the type of the stated value, as that very value: for text, numbers and
/// truth values alike.
pub proof fn law_equals_is_equality_with_the_stated_value(
    property: String,
    value: Value,
    promoted: Map<Seq<char>, Seq<char>>,
)
    ensures
        (outcome(Predicate::Equals { property, value }, promoted) is Pass) <==> (
        promoted.contains_key(property@) && coerced(promoted[property@], value@, property@)
            == Ok::<Datum, Seq<char>>(value@)),
{
}

/// The number of single-property tests in a filter.
pub open spec fn test_count(p: Predicate) -> nat
    decreases p,
{
    match p {
        Predicate::All(ps) => tests_in_all(ps@),
        Predicate::Any(ps) => tests_in_all(ps@),
        Predicate::Not(q) => test_count(*q),
        _ => 1,
    }
}

/// The number of single-property tests in several filters.
pub open spec fn tests_in_all(ps: Seq<Predicate>) -> nat
    decreases ps,
{
    if ps.len() == 0 {
        0
    } else {
        tests_in_all(ps.drop_last()) + test_count(ps.last())
    }
}

/// The property a single-property test reads.
pub open spec fn tested_property(p: Predicate) -> Option<Seq<char>> {
    match p {
        Predicate::Equals { property, value: _ } => Some(property@),
        Predicate::GreaterThan { property, value: _ } => Some(property@),
        Predicate::StartsWith { property, prefix: _ } => Some(property@),
        Predicate::Exists { property } => Some(property@),
        _ => None,
    }
}

/// A filter reads each of its tests' properties once: as many names as it has
/// tests, and a single test reads just its own property.
pub proof fn law_each_test_reads_its_property_once(p: Predicate)
    ensures
        names_read(p).len() == test_count(p),
        tested_property(p) matches Some(name) ==> names_read(p) == seq![name],
    decreases p, 1nat,
{
    match p {
        Predicate::All(ps) => lemma_tests_read_once(ps@),
        Predicate::Any(ps) => lemma_tests_read_once(ps@),
        Predicate::Not(q) => law_each_test_reads_its_property_once(*q),
        _ => {},
    }
}

proof fn lemma_tests_read_once(ps: Seq<Predicate>)
    ensures
        names_read_all(ps).len() == tests_in_all(ps),
    decreases ps, 0nat,
{
    if ps.len() > 0 {
        lemma_tests_read_once(ps.drop_last());
        law_each_test_reads_its_property_once(ps.last());
    }
}

/// A Not passes exactly when its condition declines.
pub proof fn law_not_flips(p: Predicate, m: Map<Seq<char>, Seq<char>>)
    ensures
        (outcome(Predicate::Not(Box::new(p)), m) is Pass) <==> !(outcome(p, m) is Pass),
{
}

/// Text is read as written: an Equals with a text value passes exactly when
/// the promoted text is that text, character for character, so "0012345"
/// keeps its leading zeros.
pub proof fn law_text_equality_is_exact(property: String, text: String, m: Map<Seq<char>, Seq<char>>)
    ensures
        (outcome(Predicate::Equals { property, value: Value::Text(text) }, m) is Pass) <==> (
        m.contains_key(property@) && m[property@] == text@),
{
}

/// Whether a filter cannot pass without the property `name`: a test of that
/// property needs it, an All needs what one of its conditions needs, and an
/// Any needs what every one of its conditions needs. A Not needs nothing,
/// since it passes exactly when its condition declines.
pub open spec fn needs(p: Predicate, name: Seq<char>) -> bool
    decreases p,
{
    match p {
        Predicate::Equals { property, value: _ } => property@ == name,
        Predicate::GreaterThan { property, value: _ } => property@ == name,
        Predicate::StartsWith { property, prefix: _ } => property@ == name,
        Predicate::Exists { property } => property@ == name,
        Predicate::All(ps) => exists|i: int| 0 <= i < ps@.len() && needs(#[trigger] ps@[i], name),
        Predicate::Any(ps) => forall|i: int| 0 <= i < ps@.len() ==> needs(#[trigger] ps@[i], name),
        Predicate::Not(_) => false,
    }
}

/// A filter that needs a property nothing promoted cannot fire: it declines
/// every Message whose promoted set lacks that property.
pub proof fn law_a_filter_needing_an_unpromoted_name_declines(
    p: Predicate,
    promoted: Map<Seq<char>, Seq<char>>,
    name: Seq<char>,
)
    requires
        needs(p, name),
        !promoted.contains_key(name),
    ensures
        outcome(p, promoted) is Fail,
    decreases p,
{
    match p {
        Predicate::All(ps) => {
            let i = choose|i: int| 0 <= i < ps@.len() && needs(#[trigger] ps@[i], name);
            assert(decreases_to!(p => ps@[i]));
            law_a_filter_needing_an_unpromoted_name_declines(ps@[i], promoted, name);
            law_all_passes_when_every_condition_passes(ps@, promoted);
        },
        Predicate::Any(ps) => {
            assert forall|i: int| 0 <= i < ps@.len() implies !(#[trigger] outcome(
                ps@[i],
                promoted,
            ) is Pass) by {
                assert(needs(ps@[i], name));
                assert(decreases_to!(p => ps@[i]));
                law_a_filter_needing_an_unpromoted_name_declines(ps@[i], promoted, name);
            }
            law_any_passes_when_some_condition_passes(ps@, promoted);
        },
        _ => {},
    }
}

/// Two filters are the same filter: the same tests of the same properties
/// against the same values, combined in the same way.
pub open spec fn same_filter(a: Predicate, b: Predicate) -> bool
    decreases a,
{
    match a {
        Predicate::Equals { property, value } => b matches Predicate::Equals {
            property: q,
            value: w,
        } && q@ == property@ && w@ == value@,
        Predicate::GreaterThan { property, value } => b matches Predicate::GreaterThan {
            property: q,
            value: w,
        } && q@ == property@ && w@ == value@,
        Predicate::StartsWith { property, prefix } => b matches Predicate::StartsWith {
            property: q,
            prefix: r,
        } && q@ == property@ && r@ == prefix@,
        Predicate::Exists { property } => b matches Predicate::Exists { property: q } && q@
            == property@,
        Predicate::All(ps) => b matches Predicate::All(qs) && same_filters(ps@, qs@),
        Predicate::Any(ps) => b matches Predicate::Any(qs) && same_filters(ps@, qs@),
        Predicate::Not(p) => b matches Predicate::Not(q) && same_filter(*p, *q),
    }
}

/// Two lists of filters are, position by position, the same filters.
pub open spec fn same_filters(ps: Seq<Predicate>, qs: Seq<Predicate>) -> bool
    decreases ps,
{
    &&& ps.len() == qs.len()
    &&& ps.len() > 0 ==> same_filter(ps.last(), qs.last()) && same_filters(
        ps.drop_last(),
        qs.drop_last(),
    )
}

/// The same filter decides the same way on every promoted set, with the same
/// reasons, and reads the same names.
pub proof fn law_the_same_filter_decides_the_same(
    a: Predicate,
    b: Predicate,
    promoted: Map<Seq<char>, Seq<char>>,
)
    requires
        same_filter(a, b),
    ensures
        outcome(a, promoted) == outcome(b, promoted),
        names_read(a) == names_read(b),
    decreases a, 1nat,
{
    match a {
        Predicate::All(ps) => {
            let qs = b->All_0;
            lemma_same_filters_decide_the_same(ps@, qs@, promoted);
        },
        Predicate::Any(ps) => {
            let qs = b->Any_0;
            lemma_same_filters_decide_the_same(ps@, qs@, promoted);
        },
        Predicate::Not(p) => {
            let q = b->Not_0;
            law_the_same_filter_decides_the_same(*p, *q, promoted);
        },
        _ => {},
    }
}

proof fn lemma_same_filters_decide_the_same(
    ps: Seq<Predicate>,
    qs: Seq<Predicate>,
    promoted: Map<Seq<char>, Seq<char>>,
)
    requires
        same_filters(ps, qs),
    ensures
        all_outcome(ps, promoted) == all_outcome(qs, promoted),
        any_reasons(ps, promoted) == any_reasons(qs, promoted),
        names_read_all(ps) == names_read_all(qs),
    decreases ps, 0nat,
{
    if ps.len() > 0 {
        lemma_same_filters_decide_the_same(ps.drop_last(), qs.drop_last(), promoted);
        law_the_same_filter_decides_the_same(ps.last(), qs.last(), promoted);
    }
}

impl Predicate {
    /// A copy that is the same filter.
    pub fn duplicate(&self) -> (p: Predicate)
        ensures
            same_filter(p, *self),
        decreases self, 1nat,
    {
        match self {
            Predicate::Equals { property, value } => Predicate::Equals {
                property: property.clone(),
                value: value.duplicate(),
            },
            Predicate::GreaterThan { property, value } => Predicate::GreaterThan {
                property: property.clone(),
                value: value.duplicate(),
            },
            Predicate::StartsWith { property, prefix } => Predicate::StartsWith {
                property: property.clone(),
                prefix: prefix.clone(),
            },
            Predicate::Exists { property } => Predicate::Exists { property: property.clone() },
            Predicate::All(ps) => Predicate::All(Self::duplicate_all(ps)),
            Predicate::Any(ps) => Predicate::Any(Self::duplicate_all(ps)),
            Predicate::Not(q) => Predicate::Not(Box::new(q.duplicate())),
        }
    }

    /// Copies of each of `ps`, in order.
    fn duplicate_all(ps: &Vec<Predicate>) -> (copies: Vec<Predicate>)
        ensures
            same_filters(copies@, ps@),
        decreases ps, 0nat,
    {
        let mut copies: Vec<Predicate> = Vec::new();
        let n = ps.len();
        let mut i: usize = 0;
        assert(same_filters(copies@, ps@.take(0)));
        while i < n
            invariant
                n == ps.len(),
                i <= n,
                same_filters(copies@, ps@.take(i as int)),
            decreases n - i,
        {
            proof {
                assert(decreases_to!(*ps => ps@[i as int]));
            }
            let copy = ps[i].duplicate();
            let ghost before = copies@;
            copies.push(copy);
            proof {
                assert(copies@.drop_last() =~= before);
                assert(ps@.take(i + 1).drop_last() =~= ps@.take(i as int));
                assert(ps@.take(i + 1).last() == ps@[i as int]);
            }
            i = i + 1;
        }
        assert(ps@.take(n as int) =~= ps@);
        copies
    }
}

impl Clone for Predicate {
    /// A copy that is the same filter.
    fn clone(&self) -> (p: Self)
        ensures
            same_filter(p, *self),
    {
        self.duplicate()
    }
}

/// `!condition` is the condition negated.
impl core::ops::Not for Predicate {
    type Output = Predicate;

    fn not(self) -> (p: Predicate) {
        Predicate::Not(Box::new(self))
    }
}

impl vstd::std_specs::ops::NotSpecImpl for Predicate {
    open spec fn obeys_not_spec() -> bool {
        true
    }

    open spec fn not_req(self) -> bool {
        true
    }

    open spec fn not_spec(self) -> Predicate {
        Predicate::Not(Box::new(self))
    }
}

} // verus!
