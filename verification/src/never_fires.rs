//! The deploy-time check: a Subscription that cannot fire.
//!
//! The same function that matches at run time answers this at deploy time,
//! which is the point of matching being pure. A filter naming a property
//! nothing will ever promote is found before it is deployed rather than by its
//! silence in production.

use vstd::prelude::*;

use crate::predicate::{law_each_test_reads_its_property_once, names_read, tested_property};
use crate::promoted::views_of;
use crate::subscription::Subscription;
use crate::text::{owned, same_text};

verus! {

/// A Subscription that cannot fire, and the property name that dooms it.
#[derive(Clone, Debug, PartialEq, Eq)]
pub struct NeverFires {
    pub subscription_id: String,
    pub unknown_property: String,
}

/// The pairs of Subscription id and unknown name in a list of findings.
pub open spec fn findings_view(v: Seq<NeverFires>) -> Seq<(Seq<char>, Seq<char>)> {
    v.map_values(|f: NeverFires| (f.subscription_id@, f.unknown_property@))
}

/// Each name in `names` that `promotable` lacks, paired with `id`, in order.
pub open spec fn unknown_names(
    promotable: Seq<Seq<char>>,
    id: Seq<char>,
    names: Seq<Seq<char>>,
) -> Seq<(Seq<char>, Seq<char>)>
    decreases names.len(),
{
    if names.len() == 0 {
        Seq::empty()
    } else {
        let before = unknown_names(promotable, id, names.drop_last());
        if promotable.contains(names.last()) {
            before
        } else {
            before.push((id, names.last()))
        }
    }
}

/// For every Subscription in order, every name its filter reads that
/// `promotable` lacks, paired with the Subscription's id.
pub open spec fn doomed(promotable: Seq<Seq<char>>, subscriptions: Seq<Subscription>) -> Seq<
    (Seq<char>, Seq<char>),
>
    decreases subscriptions.len(),
{
    if subscriptions.len() == 0 {
        Seq::empty()
    } else {
        doomed(promotable, subscriptions.drop_last()) + unknown_names(
            promotable,
            subscriptions.last().id@,
            names_read(subscriptions.last().filter),
        )
    }
}

proof fn lemma_unknown_names_contents(
    promotable: Seq<Seq<char>>,
    id: Seq<char>,
    names: Seq<Seq<char>>,
    finding: (Seq<char>, Seq<char>),
)
    ensures
        unknown_names(promotable, id, names).contains(finding) <==> (finding.0 == id
            && names.contains(finding.1) && !promotable.contains(finding.1)),
    decreases names.len(),
{
    if names.len() > 0 {
        let rest = names.drop_last();
        lemma_unknown_names_contents(promotable, id, rest, finding);
        let before = unknown_names(promotable, id, rest);
        if names.contains(finding.1) && finding.0 == id && !promotable.contains(finding.1) {
            let j = choose|j: int| 0 <= j < names.len() && names[j] == finding.1;
            if j < names.len() - 1 {
                assert(rest[j] == finding.1);
                assert(rest.contains(finding.1));
                assert(before.contains(finding));
                let k = choose|k: int| 0 <= k < before.len() && before[k] == finding;
                if !promotable.contains(names.last()) {
                    assert(before.push((id, names.last()))[k] == finding);
                }
            } else {
                assert(finding == (id, names.last()));
                assert(before.push(finding)[before.len() as int] == finding);
            }
        }
        if unknown_names(promotable, id, names).contains(finding) {
            if !promotable.contains(names.last()) {
                let k = choose|k: int|
                    0 <= k < before.push((id, names.last())).len() && before.push(
                        (id, names.last()),
                    )[k] == finding;
                if k < before.len() {
                    assert(before[k] == finding);
                    assert(before.contains(finding));
                    let j = choose|j: int| 0 <= j < rest.len() && rest[j] == finding.1;
                    assert(names[j] == finding.1);
                } else {
                    assert(names[names.len() - 1] == finding.1);
                }
            } else {
                let j = choose|j: int| 0 <= j < rest.len() && rest[j] == finding.1;
                assert(names[j] == finding.1);
            }
        }
    }
}

/// The deploy-time check reports exactly the unknown names: a finding pairs a
/// Subscription's id with a name its filter reads that is not promotable, and
/// every such name of every Subscription is reported.
pub proof fn law_reports_exactly_the_unknown_names(
    promotable: Seq<Seq<char>>,
    subscriptions: Seq<Subscription>,
    finding: (Seq<char>, Seq<char>),
)
    ensures
        doomed(promotable, subscriptions).contains(finding) <==> exists|i: int|
            0 <= i < subscriptions.len() && finding.0 == (#[trigger] subscriptions[i]).id@
                && names_read(subscriptions[i].filter).contains(finding.1) && !promotable.contains(
                finding.1,
            ),
    decreases subscriptions.len(),
{
    if subscriptions.len() > 0 {
        let rest = subscriptions.drop_last();
        let last = subscriptions.last();
        law_reports_exactly_the_unknown_names(promotable, rest, finding);
        lemma_unknown_names_contents(promotable, last.id@, names_read(last.filter), finding);
        let front = doomed(promotable, rest);
        let back = unknown_names(promotable, last.id@, names_read(last.filter));
        assert(doomed(promotable, subscriptions) == front + back);
        if (front + back).contains(finding) {
            let k = choose|k: int| 0 <= k < (front + back).len() && (front + back)[k] == finding;
            if k < front.len() {
                assert(front[k] == finding);
                assert(front.contains(finding));
                let i = choose|i: int|
                    0 <= i < rest.len() && finding.0 == (#[trigger] rest[i]).id@ && names_read(
                        rest[i].filter,
                    ).contains(finding.1) && !promotable.contains(finding.1);
                assert(subscriptions[i] == rest[i]);
            } else {
                assert(back[k - front.len()] == finding);
                assert(back.contains(finding));
                assert(subscriptions[subscriptions.len() - 1] == last);
            }
        }
        if exists|i: int|
            0 <= i < subscriptions.len() && finding.0 == (#[trigger] subscriptions[i]).id@
                && names_read(subscriptions[i].filter).contains(finding.1) && !promotable.contains(
                finding.1,
            ) {
            let i = choose|i: int|
                0 <= i < subscriptions.len() && finding.0 == (#[trigger] subscriptions[i]).id@
                    && names_read(subscriptions[i].filter).contains(finding.1)
                    && !promotable.contains(finding.1);
            if i < subscriptions.len() - 1 {
                assert(rest[i] == subscriptions[i]);
                let k = choose|k: int| 0 <= k < front.len() && front[k] == finding;
                assert((front + back)[k] == finding);
            } else {
                assert(subscriptions[i] == last);
                let k = choose|k: int| 0 <= k < back.len() && back[k] == finding;
                assert((front + back)[front.len() + k] == finding);
            }
        }
    }
}

/// A Subscription whose filter is one test of one property gives one finding
/// when nothing promotes that property, and none when something does.
pub proof fn law_one_finding_per_unknown_test(
    promotable: Seq<Seq<char>>,
    subscription: Subscription,
    name: Seq<char>,
)
    requires
        tested_property(subscription.filter) == Some(name),
    ensures
        !promotable.contains(name) ==> doomed(promotable, seq![subscription]) == seq![
            (subscription.id@, name),
        ],
        promotable.contains(name) ==> doomed(promotable, seq![subscription]).len() == 0,
{
    law_each_test_reads_its_property_once(subscription.filter);
    let names = names_read(subscription.filter);
    assert(names.drop_last() =~= Seq::<Seq<char>>::empty());
    assert(seq![subscription].drop_last() =~= Seq::<Subscription>::empty());
    assert(seq![subscription].last() == subscription);
    let one = seq![subscription];
    assert(doomed(promotable, one.drop_last()) == Seq::<(Seq<char>, Seq<char>)>::empty());
    assert(unknown_names(promotable, subscription.id@, names.drop_last()) == Seq::<
        (Seq<char>, Seq<char>),
    >::empty());
    assert(names.last() == name);
    let found = unknown_names(promotable, subscription.id@, names);
    assert(doomed(promotable, one) == doomed(promotable, one.drop_last()) + found);
    assert(doomed(promotable, one) =~= found);
    if !promotable.contains(name) {
        assert(found =~= seq![(subscription.id@, name)]);
    }
}

/// Whether `name` is one of `promotable`.
fn is_promotable(promotable: &[&str], name: &str) -> (r: bool)
    ensures
        r == views_of(promotable@).contains(name@),
{
    let n = promotable.len();
    let mut i: usize = 0;
    while i < n
        invariant
            n == promotable@.len(),
            i <= n,
            forall|j: int| 0 <= j < i ==> promotable@[j]@ != name@,
        decreases n - i,
    {
        if same_text(promotable[i], name) {
            assert(views_of(promotable@)[i as int] == name@);
            return true;
        }
        i = i + 1;
    }
    proof {
        if views_of(promotable@).contains(name@) {
            let j = choose|j: int|
                0 <= j < views_of(promotable@).len() && views_of(promotable@)[j] == name@;
            assert(promotable@[j]@ == name@);
        }
    }
    false
}

/// Find Subscriptions that read a property nothing will ever promote.
///
/// `promotable` is every property name the deployed Contracts can produce. A
/// filter naming anything outside that set is a typo with a deployment date. In
/// BizTalk it is invisible: the Subscription is accepted, never matches, and
/// the first symptom is a Message going nowhere months later.
///
/// A static check. It needs no traffic.
pub fn never_satisfiable(promotable: &[&str], subscriptions: &[Subscription]) -> (doomed_list: Vec<
    NeverFires,
>)
    ensures
        findings_view(doomed_list@) == doomed(views_of(promotable@), subscriptions@),
{
    let ghost known = views_of(promotable@);
    let mut found: Vec<NeverFires> = Vec::new();
    let n = subscriptions.len();
    let mut i: usize = 0;
    assert(subscriptions@.take(0) =~= Seq::<Subscription>::empty());
    assert(findings_view(found@) =~= Seq::<(Seq<char>, Seq<char>)>::empty());
    while i < n
        invariant
            n == subscriptions@.len(),
            i <= n,
            known == views_of(promotable@),
            findings_view(found@) == doomed(known, subscriptions@.take(i as int)),
        decreases n - i,
    {
        let subscription = &subscriptions[i];
        let names = subscription.filter.referenced_names();
        let ghost start = findings_view(found@);
        let m = names.len();
        let mut k: usize = 0;
        assert(views_of(names@).take(0) =~= Seq::<Seq<char>>::empty());
        assert(start + Seq::<(Seq<char>, Seq<char>)>::empty() =~= start);
        while k < m
            invariant
                m == names@.len(),
                k <= m,
                known == views_of(promotable@),
                findings_view(found@) == start + unknown_names(
                    known,
                    subscription.id@,
                    views_of(names@).take(k as int),
                ),
            decreases m - k,
        {
            let name = names[k];
            let ghost before = found@;
            proof {
                assert(views_of(names@).take(k + 1).drop_last() =~= views_of(names@).take(
                    k as int,
                ));
                assert(views_of(names@).take(k + 1).last() == name@);
            }
            if !is_promotable(promotable, name) {
                found.push(
                    NeverFires {
                        subscription_id: subscription.id.clone(),
                        unknown_property: owned(name),
                    },
                );
                assert(findings_view(found@) =~= findings_view(before).push(
                    (subscription.id@, name@),
                ));
            }
            k = k + 1;
        }
        proof {
            assert(views_of(names@).take(m as int) =~= views_of(names@));
            assert(subscriptions@.take(i + 1).drop_last() =~= subscriptions@.take(i as int));
            assert(subscriptions@.take(i + 1).last() == subscriptions@[i as int]);
        }
        i = i + 1;
    }
    assert(subscriptions@.take(n as int) =~= subscriptions@);
    found
}

} // verus!
