//! The promoted properties of one Message, as routing sees them.
//!
//! Matching reads this and nothing else, which is what makes it a pure function
//! rather than a query — see the crate documentation, point 1.

use vstd::prelude::*;

use crate::text::{
    chars_of, compare_texts, decimal, decimal_text, lemma_text_lt_asymmetric,
    lemma_text_lt_irreflexive, lemma_text_lt_transitive, owned, text_lt, TextOrder,
};
use crate::value::{flag_str, flag_text};

verus! {

/// Every name comes strictly after the one before it, in the order of text.
pub open spec fn strictly_sorted(s: Seq<Seq<char>>) -> bool {
    forall|i: int, j: int| 0 <= i < j < s.len() ==> text_lt(#[trigger] s[i], #[trigger] s[j])
}

/// The texts of several borrowed strings.
pub open spec fn views_of(v: Seq<&str>) -> Seq<Seq<char>> {
    v.map_values(|s: &str| s@)
}

/// `s` lists the names in `names`, each once, in the order of text.
pub open spec fn enumerates(s: Seq<Seq<char>>, names: Set<Seq<char>>) -> bool {
    &&& strictly_sorted(s)
    &&& forall|x: Seq<char>| s.contains(x) <==> names.contains(x)
}

proof fn lemma_sorted_unique(s: Seq<Seq<char>>, i: int, j: int)
    requires
        strictly_sorted(s),
        0 <= i < s.len(),
        0 <= j < s.len(),
        s[i] == s[j],
    ensures
        i == j,
{
    lemma_text_lt_irreflexive(s[i]);
    if i < j {
        assert(text_lt(s[i], s[j]));
    } else if j < i {
        assert(text_lt(s[j], s[i]));
    }
}

/// A set of names has one listing in order, so two listings of the same names
/// are the same listing.
pub proof fn lemma_listing_is_unique(s1: Seq<Seq<char>>, s2: Seq<Seq<char>>, names: Set<Seq<char>>)
    requires
        enumerates(s1, names),
        enumerates(s2, names),
    ensures
        s1 == s2,
    decreases s1.len(),
{
    if s1.len() == 0 {
        if s2.len() > 0 {
            assert(s2.contains(s2[0]));
            assert(names.contains(s2[0]));
            assert(!s1.contains(s2[0]));
        }
        assert(s1 =~= s2);
    } else {
        assert(s1.contains(s1[0]));
        assert(s2.contains(s1[0]));
        let j = choose|j: int| 0 <= j < s2.len() && s2[j] == s1[0];
        assert(s2.contains(s2[0]));
        assert(s1.contains(s2[0]));
        let k = choose|k: int| 0 <= k < s1.len() && s1[k] == s2[0];
        if j > 0 {
            assert(text_lt(s2[0], s2[j]));
            if k > 0 {
                assert(text_lt(s1[0], s1[k]));
                lemma_text_lt_asymmetric(s1[0], s2[0]);
            } else {
                lemma_sorted_unique(s2, 0, j);
            }
        }
        assert(s1[0] == s2[0]);
        let t1 = s1.drop_first();
        let t2 = s2.drop_first();
        let rest = names.remove(s1[0]);
        assert forall|x: Seq<char>| t1.contains(x) <==> rest.contains(x) by {
            if t1.contains(x) {
                let a = choose|a: int| 0 <= a < t1.len() && t1[a] == x;
                assert(s1[a + 1] == x);
                assert(s1.contains(x));
                assert(text_lt(s1[0], s1[a + 1]));
                lemma_text_lt_irreflexive(x);
            }
            if rest.contains(x) {
                assert(s1.contains(x));
                let a = choose|a: int| 0 <= a < s1.len() && s1[a] == x;
                assert(a != 0);
                assert(t1[a - 1] == x);
            }
        }
        assert forall|x: Seq<char>| t2.contains(x) <==> rest.contains(x) by {
            if t2.contains(x) {
                let a = choose|a: int| 0 <= a < t2.len() && t2[a] == x;
                assert(s2[a + 1] == x);
                assert(s2.contains(x));
                assert(text_lt(s2[0], s2[a + 1]));
                lemma_text_lt_irreflexive(x);
            }
            if rest.contains(x) {
                assert(s2.contains(x));
                let a = choose|a: int| 0 <= a < s2.len() && s2[a] == x;
                assert(a != 0);
                assert(t2[a - 1] == x);
            }
        }
        lemma_listing_is_unique(t1, t2, rest);
        assert(s1 =~= seq![s1[0]] + t1);
        assert(s2 =~= seq![s2[0]] + t2);
    }
}

/// The promoted properties of one Message, as routing sees them.
///
/// Ordered by name so an explanation reads the same way twice, and so two sets
/// with the same content are the same set.
#[derive(Debug, PartialEq, Eq)]
pub struct Promoted {
    entries: Vec<(String, String)>,
}

impl Promoted {
    /// The promoted names, in the order they are held.
    pub closed spec fn held_names(&self) -> Seq<Seq<char>> {
        self.entries@.map_values(|e: (String, String)| e.0@)
    }

    /// The promoted texts, beside their names.
    pub closed spec fn held_texts(&self) -> Seq<Seq<char>> {
        self.entries@.map_values(|e: (String, String)| e.1@)
    }

    #[verifier::type_invariant]
    closed spec fn well_formed(&self) -> bool {
        strictly_sorted(self.held_names())
    }
}

impl View for Promoted {
    type V = Map<Seq<char>, Seq<char>>;

    /// Each promoted name with its text.
    closed spec fn view(&self) -> Map<Seq<char>, Seq<char>> {
        Map::new(
            |k: Seq<char>| self.held_names().contains(k),
            |k: Seq<char>| self.held_texts()[self.held_names().index_of(k)],
        )
    }
}

impl Promoted {
    proof fn lemma_lookup(&self, i: int)
        requires
            self.well_formed(),
            0 <= i < self.entries@.len(),
        ensures
            self@.contains_key(self.entries@[i].0@),
            self@[self.entries@[i].0@] == self.entries@[i].1@,
    {
        let names = self.held_names();
        assert(names[i] == self.entries@[i].0@);
        assert(names.contains(names[i]));
        let j = names.index_of(names[i]);
        lemma_sorted_unique(names, i, j);
    }

    proof fn lemma_domain(&self)
        requires
            self.well_formed(),
        ensures
            enumerates(self.held_names(), self@.dom()),
            self@.dom() == self.held_names().to_set(),
            self@.dom().finite(),
            self@.dom().len() == self.entries@.len(),
    {
        let names = self.held_names();
        assert(self@.dom() =~= names.to_set());
        assert(names.no_duplicates()) by {
            assert forall|i: int, j: int|
                0 <= i < names.len() && 0 <= j < names.len() && i != j implies names[i]
                != names[j] by {
                if names[i] == names[j] {
                    lemma_sorted_unique(names, i, j);
                }
            }
        }
        names.unique_seq_to_set();
        broadcast use vstd::seq_lib::seq_to_set_is_finite;
    }

    /// An empty promoted set.
    pub fn new() -> (p: Self)
        ensures
            p@ == Map::<Seq<char>, Seq<char>>::empty(),
    {
        let p = Promoted { entries: Vec::new() };
        assert(p@ =~= Map::<Seq<char>, Seq<char>>::empty());
        p
    }

    /// Add one property. A later promotion of the same name replaces an earlier
    /// one, because the last handler to speak is the one that knew most.
    pub fn set(self, property: &str, value: &str) -> (p: Self)
        ensures
            p@ == self@.insert(property@, value@),
    {
        proof {
            use_type_invariant(&self);
        }
        let ghost old_self = self;
        let ghost old_names = self.held_names();
        let ghost old_texts = self.held_texts();
        let key = chars_of(property);
        let mut entries = self.entries;
        let n = entries.len();
        let mut i: usize = 0;
        let mut found = false;
        while i < n
            invariant_except_break
                !found,
            invariant
                n == entries.len(),
                entries@ == old_self.entries@,
                i <= n,
                forall|j: int| 0 <= j < i ==> text_lt(#[trigger] old_names[j], key@),
                old_names == old_self.held_names(),
                key@ == property@,
            ensures
                i <= n,
                forall|j: int| 0 <= j < i ==> text_lt(#[trigger] old_names[j], key@),
                found ==> i < n && old_names[i as int] == key@,
                !found && i < n ==> text_lt(key@, old_names[i as int]),
            decreases n - i,
        {
            let name = chars_of(entries[i].0.as_str());
            assert(name@ == old_names[i as int]);
            match compare_texts(name.as_slice(), key.as_slice()) {
                TextOrder::Less => {
                    i = i + 1;
                },
                TextOrder::Same => {
                    found = true;
                    break;
                },
                TextOrder::Greater => {
                    break;
                },
            }
        }
        if found {
            entries.set(i, (owned(property), owned(value)));
            proof {
                assert(entries@.map_values(|e: (String, String)| e.0@) =~= old_names);
            }
            let p = Promoted { entries };
            proof {
                assert(p.held_names() =~= old_names);
                assert(p.held_texts() =~= old_texts.update(i as int, value@));
                old_self.lemma_domain();
                p.lemma_domain();
                assert forall|x: Seq<char>|
                    p@.contains_key(x) implies p@[x] == old_self@.insert(property@, value@)[x] by {
                    assert(p.held_names().contains(x));
                    assert(old_names.contains(x));
                    let j = old_names.index_of(x);
                    assert(old_names[j] == x);
                    p.lemma_lookup(j);
                    assert(p.entries@[j].0@ == x);
                    if j != i {
                        old_self.lemma_lookup(j);
                        assert(old_self.entries@[j].0@ == x);
                        if x == property@ {
                            lemma_sorted_unique(old_names, i as int, j);
                        }
                    }
                }
                assert(p@ =~= old_self@.insert(property@, value@));
            }
            return p;
        }
        entries.insert(i, (owned(property), owned(value)));
        proof {
            let names = entries@.map_values(|e: (String, String)| e.0@);
            assert(names =~= old_names.insert(i as int, property@));
            assert forall|a: int, b: int| 0 <= a < b < names.len() implies text_lt(
                #[trigger] names[a],
                #[trigger] names[b],
            ) by {
                if b < i {
                } else if b == i {
                } else if a == i {
                    if i + 1 < b {
                        assert(text_lt(old_names[i as int], old_names[b - 1]));
                        lemma_text_lt_transitive(key@, old_names[i as int], old_names[b - 1]);
                    }
                } else if a < i {
                    if b - 1 > i {
                        assert(text_lt(old_names[i as int], old_names[b - 1]));
                        lemma_text_lt_transitive(key@, old_names[i as int], old_names[b - 1]);
                    }
                    lemma_text_lt_transitive(old_names[a], key@, old_names[b - 1]);
                } else {
                }
            }
        }
        let p = Promoted { entries };
        proof {
            let names = p.held_names();
            assert(names =~= old_names.insert(i as int, property@));
            assert(p.held_texts() =~= old_texts.insert(i as int, value@));
            old_self.lemma_domain();
            p.lemma_domain();
            assert(!old_names.contains(property@)) by {
                if old_names.contains(property@) {
                    let j = choose|j: int| 0 <= j < old_names.len() && old_names[j] == property@;
                    lemma_text_lt_irreflexive(key@);
                    if j < i {
                        assert(text_lt(old_names[j], key@));
                    } else if j == i {
                        assert(text_lt(key@, old_names[i as int]));
                    } else {
                        assert(text_lt(old_names[i as int], old_names[j]));
                        lemma_text_lt_asymmetric(key@, old_names[i as int]);
                    }
                }
            }
            assert forall|x: Seq<char>|
                p@.contains_key(x) implies p@[x] == old_self@.insert(property@, value@)[x] by {
                let j = names.index_of(x);
                assert(names.contains(x));
                p.lemma_lookup(j);
                if j < i {
                    old_self.lemma_lookup(j);
                } else if j > i {
                    old_self.lemma_lookup(j - 1);
                }
            }
            assert forall|x: Seq<char>|
                old_self@.insert(property@, value@).contains_key(x) implies #[trigger] p@.contains_key(x) by {
                if x != property@ {
                    assert(old_self@.contains_key(x));
                    assert(old_self.held_names().contains(x));
                    let j = old_names.index_of(x);
                    assert(old_names.contains(x));
                    if j < i {
                        assert(names[j] == x);
                    } else {
                        assert(names[j + 1] == x);
                    }
                } else {
                    assert(names[i as int] == x);
                }
            }
            assert(p@ =~= old_self@.insert(property@, value@));
        }
        p
    }

    /// The text promoted under a name, if anything promoted it.
    pub fn get(&self, property: &str) -> (r: Option<&str>)
        ensures
            r is Some <==> self@.contains_key(property@),
            r matches Some(text) ==> text@ == self@[property@],
    {
        proof {
            use_type_invariant(self);
        }
        let key = chars_of(property);
        let n = self.entries.len();
        let mut i: usize = 0;
        while i < n
            invariant
                n == self.entries.len(),
                i <= n,
                key@ == property@,
                forall|j: int| 0 <= j < i ==> self.entries@[j].0@ != property@,
            decreases n - i,
        {
            proof {
                use_type_invariant(self);
            }
            let name = chars_of(self.entries[i].0.as_str());
            match compare_texts(name.as_slice(), key.as_slice()) {
                TextOrder::Same => {
                    proof {
                        self.lemma_lookup(i as int);
                    }
                    return Some(self.entries[i].1.as_str());
                },
                _ => {
                    i = i + 1;
                },
            }
        }
        proof {
            if self.held_names().contains(property@) {
                let j = choose|j: int|
                    0 <= j < self.held_names().len() && self.held_names()[j] == property@;
                assert(self.entries@[j].0@ == property@);
            }
        }
        None
    }

    /// The promoted names, in the order of text, each once.
    pub fn names(&self) -> (r: Vec<&str>)
        ensures
            enumerates(views_of(r@), self@.dom()),
    {
        proof {
            use_type_invariant(self);
            self.lemma_domain();
        }
        let mut r: Vec<&str> = Vec::new();
        let n = self.entries.len();
        let mut i: usize = 0;
        while i < n
            invariant
                n == self.entries.len(),
                i <= n,
                views_of(r@) == self.held_names().take(i as int),
                r@.len() == i,
            decreases n - i,
        {
            let ghost before = r@;
            let name = self.entries[i].0.as_str();
            r.push(name);
            proof {
                assert forall|k: int| 0 <= k < i + 1 implies #[trigger] views_of(r@)[k]
                    == self.held_names().take(i + 1)[k] by {
                    if k < i {
                        assert(r@[k] == before[k]);
                        assert(views_of(before)[k] == self.held_names().take(i as int)[k]);
                    }
                }
                assert(views_of(r@) =~= self.held_names().take(i + 1));
            }
            i = i + 1;
        }
        assert(self.held_names().take(n as int) =~= self.held_names());
        r
    }

    /// Whether nothing was promoted.
    pub fn is_empty(&self) -> (r: bool)
        ensures
            r == (self@.dom().len() == 0),
    {
        proof {
            use_type_invariant(self);
            self.lemma_domain();
        }
        self.entries.len() == 0
    }

    /// How many names were promoted.
    pub fn len(&self) -> (r: usize)
        ensures
            r == self@.dom().len(),
            self@.dom().finite(),
    {
        proof {
            use_type_invariant(self);
            self.lemma_domain();
        }
        self.entries.len()
    }
}

/// The last promotion wins: promoting a name twice leaves the second text, as
/// if the first had never been promoted.
pub proof fn law_last_promotion_wins(
    start: Promoted,
    once: Promoted,
    twice: Promoted,
    name: Seq<char>,
    first: Seq<char>,
    second: Seq<char>,
)
    requires
        once@ == start@.insert(name, first),
        twice@ == once@.insert(name, second),
    ensures
        twice@ == start@.insert(name, second),
        twice@[name] == second,
{
    assert(twice@ =~= start@.insert(name, second));
}

/// Promotions of different names may come in either order: the sets are the
/// same, and so are their listings of names.
pub proof fn law_promotion_order_does_not_matter(
    start: Promoted,
    one_then_other: Promoted,
    other_then_one: Promoted,
    a: Seq<char>,
    x: Seq<char>,
    b: Seq<char>,
    y: Seq<char>,
    listing1: Seq<Seq<char>>,
    listing2: Seq<Seq<char>>,
)
    requires
        a != b,
        one_then_other@ == start@.insert(a, x).insert(b, y),
        other_then_one@ == start@.insert(b, y).insert(a, x),
        enumerates(listing1, one_then_other@.dom()),
        enumerates(listing2, other_then_one@.dom()),
    ensures
        one_then_other@ == other_then_one@,
        listing1 == listing2,
{
    assert(one_then_other@ =~= other_then_one@);
    lemma_listing_is_unique(listing1, listing2, one_then_other@.dom());
}

impl Clone for Promoted {
    /// The same names with the same texts.
    fn clone(&self) -> (p: Self)
        ensures
            p@ == self@,
    {
        proof {
            use_type_invariant(self);
        }
        let mut entries: Vec<(String, String)> = Vec::new();
        let n = self.entries.len();
        let mut i: usize = 0;
        while i < n
            invariant
                n == self.entries.len(),
                i <= n,
                entries@ == self.entries@.take(i as int),
            decreases n - i,
        {
            let entry = &self.entries[i];
            entries.push((entry.0.clone(), entry.1.clone()));
            assert(entries@ =~= self.entries@.take(i + 1));
            i = i + 1;
        }
        assert(entries@ =~= self.entries@);
        Promoted { entries }
    }
}

impl Default for Promoted {
    /// An empty promoted set.
    fn default() -> (p: Self)
        ensures
            p@ == Map::<Seq<char>, Seq<char>>::empty(),
    {
        Promoted::new()
    }
}

// ---------------------------------------------------------------------------
// Promotion from a Message's context
// ---------------------------------------------------------------------------

/// One value of a Message's context, as promotion reads it.
///
/// A decimal is carried as the text its own type writes for it, which is the
/// text promotion uses.
#[derive(Clone, Debug, PartialEq, Eq)]
pub enum ContextValue {
    Text(String),
    Bool(bool),
    Integer(i64),
    Decimal(String),
    Null,
    Binary(Vec<u8>),
}

/// A context value as the text a filter compares: text as it is, a boolean and
/// a number as they are written; nothing for Null and for Binary.
pub open spec fn context_text(value: ContextValue) -> Option<Seq<char>> {
    match value {
        ContextValue::Text(text) => Some(text@),
        ContextValue::Bool(flag) => Some(flag_text(flag)),
        ContextValue::Integer(number) => Some(decimal(number as int)),
        ContextValue::Decimal(text) => Some(text@),
        ContextValue::Null => None,
        ContextValue::Binary(_) => None,
    }
}

/// The promoted set that a context's entries give, in the order they are read:
/// Binary values are left out, Null is the empty text, everything else is its
/// text, and a later entry of a name replaces an earlier one.
pub open spec fn promoted_from(entries: Seq<(String, ContextValue)>) -> Map<Seq<char>, Seq<char>>
    decreases entries.len(),
{
    if entries.len() == 0 {
        Map::empty()
    } else {
        let before = promoted_from(entries.drop_last());
        let (key, value) = entries.last();
        match value {
            ContextValue::Binary(_) => before,
            ContextValue::Null => before.insert(key@, Seq::empty()),
            other => before.insert(
                key@,
                match context_text(other) {
                    Some(text) => text,
                    None => Seq::empty(),
                },
            ),
        }
    }
}

/// A context value as the text a filter compares, the one rendering every
/// route technology uses: text as it is, a boolean and a number as they are
/// written. `None` for Null and for Binary, which have no text that would be
/// right often enough to be worth being wrong the rest of the time.
pub fn text_of(value: &ContextValue) -> (r: Option<String>)
    ensures
        match r {
            Some(text) => context_text(*value) == Some(text@),
            None => context_text(*value) is None,
        },
{
    match value {
        ContextValue::Text(text) => Some(text.clone()),
        ContextValue::Bool(flag) => Some(owned(flag_str(*flag))),
        ContextValue::Integer(number) => Some(decimal_text(*number)),
        ContextValue::Decimal(text) => Some(text.clone()),
        ContextValue::Null => None,
        ContextValue::Binary(_) => None,
    }
}

impl Promoted {
    /// Take the promoted set from a Message's Context, given as its entries in
    /// the order the context yields them.
    ///
    /// Everything arrives as text, because text is what came off the wire and
    /// the Subscription is what states the type. Binary values are left out:
    /// there is no reading of arbitrary bytes as text that is right often
    /// enough to be worth being wrong the rest of the time.
    pub fn from_context(context: &[(String, ContextValue)]) -> (p: Self)
        ensures
            p@ == promoted_from(context@),
    {
        let mut p = Promoted::new();
        let n = context.len();
        let mut i: usize = 0;
        while i < n
            invariant
                n == context@.len(),
                i <= n,
                p@ == promoted_from(context@.take(i as int)),
            decreases n - i,
        {
            let entry = &context[i];
            let key = &entry.0;
            let value = &entry.1;
            let ghost before = p@;
            proof {
                assert(context@.take(i + 1).drop_last() =~= context@.take(i as int));
                assert(context@.take(i + 1).last() == context@[i as int]);
                assert(*entry == context@[i as int]);
            }
            match value {
                ContextValue::Binary(_) => {
                    assert(p@ == promoted_from(context@.take(i + 1)));
                },
                ContextValue::Null => {
                    proof {
                        reveal_strlit("");
                        assert(""@ =~= Seq::<char>::empty());
                    }
                    p = p.set(key.as_str(), "");
                    assert(p@ == promoted_from(context@.take(i + 1)));
                },
                other => {
                    let text = match text_of(other) {
                        Some(text) => text,
                        None => String::new(),
                    };
                    p = p.set(key.as_str(), text.as_str());
                    assert(p@ == promoted_from(context@.take(i + 1)));
                },
            }
            i = i + 1;
        }
        assert(context@.take(n as int) =~= context@);
        p
    }
}

} // verus!
