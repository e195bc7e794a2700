//! Where a Message goes, the reasoning for every Subscription that was asked,
//! and the act of publishing one Message against all of them.
//!
//! **No subscriber is a disposition, not an exception.** BizTalk raises a
//! routing failure and suspends the Message; here it is [`Dispatch::Unroutable`]
//! and the Message is kept for retention.

use vstd::prelude::*;

use crate::predicate::{outcome, Outcome, Test};
use crate::promoted::Promoted;
use crate::subscription::{Subscriber, Subscription};

verus! {

/// What one Subscription decided about one Message, and why.
#[derive(Clone, Debug, PartialEq, Eq)]
pub struct Evaluation {
    pub subscription_id: String,
    pub destination: Subscriber,
    pub outcome: Test,
}

impl Evaluation {
    /// Whether the Subscription took the Message.
    pub fn matched(&self) -> (r: bool)
        ensures
            r == (self.outcome@ is Pass),
    {
        self.outcome.passed()
    }
}

/// Where a Message goes, and the reasoning for every Subscription that was
/// asked. The reasoning for the ones that declined is the valuable half.
#[derive(Clone, Debug, PartialEq, Eq)]
pub struct Routing {
    pub evaluations: Vec<Evaluation>,
}

/// The destinations of the evaluations that matched, in order.
pub open spec fn matched_destinations(es: Seq<Evaluation>) -> Seq<Subscriber>
    decreases es.len(),
{
    if es.len() == 0 {
        Seq::empty()
    } else {
        let before = matched_destinations(es.drop_last());
        if es.last().outcome@ is Pass {
            before.push(es.last().destination)
        } else {
            before
        }
    }
}

/// The Subscription id and the reason of each evaluation that declined, in
/// order.
pub open spec fn declined(es: Seq<Evaluation>) -> Seq<(Seq<char>, Seq<char>)>
    decreases es.len(),
{
    if es.len() == 0 {
        Seq::empty()
    } else {
        let before = declined(es.drop_last());
        match es.last().outcome@ {
            Outcome::Pass => before,
            Outcome::Fail(why) => before.push((es.last().subscription_id@, why)),
        }
    }
}

/// The Subscribers behind a sequence of borrows.
pub open spec fn subscribers_of(v: Seq<&Subscriber>) -> Seq<Subscriber> {
    v.map_values(|s: &Subscriber| *s)
}

/// The texts of a sequence of borrowed pairs of texts.
pub open spec fn pair_views(v: Seq<(&str, &str)>) -> Seq<(Seq<char>, Seq<char>)> {
    v.map_values(|p: (&str, &str)| (p.0@, p.1@))
}

/// The routing outcome for one published Message.
///
/// Unroutable is a disposition, not a failure. The Message was valid, it passed
/// its Contract, and nobody wanted it — a statement about configuration, not
/// about the Message. It is kept under retention so the question can be
/// answered later.
#[derive(Clone, Copy, Debug, PartialEq, Eq)]
pub enum Dispatch {
    Routed(usize),
    Unroutable,
}

/// The disposition for a number of matches.
pub open spec fn disposition(matches: nat) -> Dispatch {
    if matches == 0 {
        Dispatch::Unroutable
    } else {
        Dispatch::Routed(matches as usize)
    }
}

impl Dispatch {
    /// Whether the Message must be kept because nothing took it.
    pub fn retains(&self) -> (r: bool)
        ensures
            r == (*self is Unroutable),
    {
        match self {
            Dispatch::Unroutable => true,
            Dispatch::Routed(_) => false,
        }
    }
}

impl Routing {
    /// The destinations this Message is bound for, in subscription order.
    pub fn destinations(&self) -> (r: Vec<&Subscriber>)
        ensures
            subscribers_of(r@) == matched_destinations(self.evaluations@),
    {
        let mut r: Vec<&Subscriber> = Vec::new();
        let n = self.evaluations.len();
        let mut i: usize = 0;
        assert(self.evaluations@.take(0) =~= Seq::<Evaluation>::empty());
        assert(subscribers_of(r@) =~= Seq::<Subscriber>::empty());
        while i < n
            invariant
                n == self.evaluations.len(),
                i <= n,
                subscribers_of(r@) == matched_destinations(self.evaluations@.take(i as int)),
            decreases n - i,
        {
            let evaluation = &self.evaluations[i];
            let ghost before = r@;
            if evaluation.matched() {
                r.push(&evaluation.destination);
                assert(subscribers_of(r@) =~= subscribers_of(before).push(
                    evaluation.destination,
                ));
            }
            proof {
                assert(self.evaluations@.take(i + 1).drop_last() =~= self.evaluations@.take(
                    i as int,
                ));
                assert(self.evaluations@.take(i + 1).last() == self.evaluations@[i as int]);
            }
            i = i + 1;
        }
        assert(self.evaluations@.take(n as int) =~= self.evaluations@);
        r
    }

    /// What routing decided, as a disposition.
    pub fn dispatch(&self) -> (d: Dispatch)
        ensures
            d == disposition(matched_destinations(self.evaluations@).len()),
    {
        let matched = self.destinations().len();
        if matched == 0 {
            Dispatch::Unroutable
        } else {
            Dispatch::Routed(matched)
        }
    }

    /// Why each Subscription declined, in the order they were asked.
    pub fn declines(&self) -> (r: Vec<(&str, &str)>)
        ensures
            pair_views(r@) == declined(self.evaluations@),
    {
        let mut r: Vec<(&str, &str)> = Vec::new();
        let n = self.evaluations.len();
        let mut i: usize = 0;
        assert(self.evaluations@.take(0) =~= Seq::<Evaluation>::empty());
        assert(pair_views(r@) =~= Seq::<(Seq<char>, Seq<char>)>::empty());
        while i < n
            invariant
                n == self.evaluations.len(),
                i <= n,
                pair_views(r@) == declined(self.evaluations@.take(i as int)),
            decreases n - i,
        {
            let evaluation = &self.evaluations[i];
            let ghost before = r@;
            if !evaluation.matched() {
                match evaluation.outcome.reason() {
                    Some(why) => {
                        let id = evaluation.subscription_id.as_str();
                        r.push((id, why));
                        assert(pair_views(r@) =~= pair_views(before).push((id@, why@)));
                    },
                    None => {},
                }
            }
            proof {
                assert(self.evaluations@.take(i + 1).drop_last() =~= self.evaluations@.take(
                    i as int,
                ));
                assert(self.evaluations@.take(i + 1).last() == self.evaluations@[i as int]);
            }
            i = i + 1;
        }
        assert(self.evaluations@.take(n as int) =~= self.evaluations@);
        r
    }
}

/// Every evaluation is accounted for exactly once: it is either a destination
/// or a decline with its reason.
pub proof fn law_every_evaluation_is_a_destination_or_a_decline(es: Seq<Evaluation>)
    ensures
        matched_destinations(es).len() + declined(es).len() == es.len(),
    decreases es.len(),
{
    if es.len() > 0 {
        law_every_evaluation_is_a_destination_or_a_decline(es.drop_last());
    }
}

/// The destinations of the Subscriptions whose filters take a promoted set,
/// in subscription order.
pub open spec fn subscribers_taking(
    promoted: Map<Seq<char>, Seq<char>>,
    subscriptions: Seq<Subscription>,
) -> Seq<Subscriber>
    decreases subscriptions.len(),
{
    if subscriptions.len() == 0 {
        Seq::empty()
    } else {
        let before = subscribers_taking(promoted, subscriptions.drop_last());
        let last = subscriptions.last();
        if outcome(last.filter, promoted) is Pass {
            before.push(last.destination)
        } else {
            before
        }
    }
}

/// The evaluations `publish` gives for a promoted set and Subscriptions: one
/// per Subscription, in order, each with its id, destination and outcome.
pub open spec fn evaluates(
    es: Seq<Evaluation>,
    promoted: Map<Seq<char>, Seq<char>>,
    subscriptions: Seq<Subscription>,
) -> bool {
    &&& es.len() == subscriptions.len()
    &&& forall|i: int|
        0 <= i < subscriptions.len() ==> {
            let e = #[trigger] es[i];
            &&& e.subscription_id@ == subscriptions[i].id@
            &&& e.destination == subscriptions[i].destination
            &&& e.outcome@ == outcome(subscriptions[i].filter, promoted)
        }
}

/// Where a Message goes depends on its promoted set and the Subscriptions
/// alone: the destinations of a publication are the destinations of the
/// Subscriptions whose filters take the promoted set, and the Message is
/// unroutable, and kept, exactly when there are none.
pub proof fn law_destinations_are_the_subscriptions_that_match(
    es: Seq<Evaluation>,
    promoted: Map<Seq<char>, Seq<char>>,
    subscriptions: Seq<Subscription>,
)
    requires
        evaluates(es, promoted, subscriptions),
    ensures
        matched_destinations(es) == subscribers_taking(promoted, subscriptions),
        (disposition(matched_destinations(es).len()) is Unroutable) <==> subscribers_taking(
            promoted,
            subscriptions,
        ).len() == 0,
    decreases subscriptions.len(),
{
    if subscriptions.len() > 0 {
        let rest = es.drop_last();
        let earlier = subscriptions.drop_last();
        assert forall|i: int| 0 <= i < earlier.len() implies {
            let e = #[trigger] rest[i];
            &&& e.subscription_id@ == earlier[i].id@
            &&& e.destination == earlier[i].destination
            &&& e.outcome@ == outcome(earlier[i].filter, promoted)
        } by {
            assert(rest[i] == es[i]);
            assert(earlier[i] == subscriptions[i]);
        }
        law_destinations_are_the_subscriptions_that_match(rest, promoted, earlier);
        assert(es.last() == es[es.len() - 1]);
    }
}

/// Publish one Message's promoted set against every Subscription.
///
/// Every Subscription is asked, including the ones that will decline, because
/// the declines are the diagnosis.
pub fn publish(promoted: &Promoted, subscriptions: &[Subscription]) -> (r: Routing)
    ensures
        evaluates(r.evaluations@, promoted@, subscriptions@),
{
    let mut evaluations: Vec<Evaluation> = Vec::new();
    let n = subscriptions.len();
    let mut i: usize = 0;
    while i < n
        invariant
            n == subscriptions@.len(),
            i <= n,
            evaluations@.len() == i,
            forall|j: int|
                0 <= j < i ==> {
                    let e = #[trigger] evaluations@[j];
                    &&& e.subscription_id@ == subscriptions@[j].id@
                    &&& e.destination == subscriptions@[j].destination
                    &&& e.outcome@ == outcome(subscriptions@[j].filter, promoted@)
                },
        decreases n - i,
    {
        let subscription = &subscriptions[i];
        let evaluation = Evaluation {
            subscription_id: subscription.id.clone(),
            destination: subscription.destination.duplicate(),
            outcome: subscription.filter.test(promoted),
        };
        evaluations.push(evaluation);
        i = i + 1;
    }
    Routing { evaluations }
}

} // verus!
