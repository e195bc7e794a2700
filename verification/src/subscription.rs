//! One standing interest in published Messages, and who a match goes to.
//!
//! Subscriptions are artifacts: written in TOML, loaded through
//! `xmip-core-configure` and stored through `xmip-core-persist`, like every
//! other artifact.

use vstd::prelude::*;

use crate::predicate::Predicate;
use crate::text::owned;

verus! {

/// Who a matched Message goes to.
///
/// Three cases, named rather than encoded in a string. `"SendPort.Billing"`
/// carried the same information and made the reader parse it, which meant a
/// misspelled prefix was a runtime surprise instead of a compile error.
#[derive(Clone, Debug, PartialEq, Eq)]
pub enum Subscriber {
    Process(String),
    SendPort(String),
    SendGroup(String),
}

/// The name of the artifact a Subscriber stands for.
pub open spec fn subscriber_name(s: Subscriber) -> Seq<char> {
    match s {
        Subscriber::Process(name) => name@,
        Subscriber::SendPort(name) => name@,
        Subscriber::SendGroup(name) => name@,
    }
}

/// The kind of artifact a Subscriber stands for.
pub open spec fn subscriber_kind(s: Subscriber) -> Seq<char> {
    match s {
        Subscriber::Process(_) => "Process"@,
        Subscriber::SendPort(_) => "SendPort"@,
        Subscriber::SendGroup(_) => "SendGroup"@,
    }
}

/// A Subscriber written out: its kind, a dot, its name.
pub open spec fn subscriber_text(s: Subscriber) -> Seq<char> {
    subscriber_kind(s) + "."@ + subscriber_name(s)
}

impl Subscriber {
    pub fn name(&self) -> (r: &str)
        ensures
            r@ == subscriber_name(*self),
    {
        match self {
            Subscriber::Process(name) => name.as_str(),
            Subscriber::SendPort(name) => name.as_str(),
            Subscriber::SendGroup(name) => name.as_str(),
        }
    }

    pub fn kind(&self) -> (r: &'static str)
        ensures
            r@ == subscriber_kind(*self),
    {
        match self {
            Subscriber::Process(_) => "Process",
            Subscriber::SendPort(_) => "SendPort",
            Subscriber::SendGroup(_) => "SendGroup",
        }
    }

    /// The Subscriber as it is written: `Process.Approval`.
    pub fn to_string(&self) -> (r: String)
        ensures
            r@ == subscriber_text(*self),
    {
        let mut r = owned(self.kind());
        r.append(".");
        r.append(self.name());
        r
    }

    /// A copy that is the same Subscriber.
    pub fn duplicate(&self) -> (r: Subscriber)
        ensures
            r == *self,
    {
        match self {
            Subscriber::Process(name) => Subscriber::Process(name.clone()),
            Subscriber::SendPort(name) => Subscriber::SendPort(name.clone()),
            Subscriber::SendGroup(name) => Subscriber::SendGroup(name.clone()),
        }
    }
}

/// One standing interest in published Messages.
///
/// The destination is an artifact — a Send Port, a Send Group or an Xmip
/// Process. Routing decides *that* a Message goes there, never *how* it gets
/// there.
///
/// `required_contract` and `transformation` name artifacts by id rather than
/// carrying them. A Subscription is configuration, and configuration that
/// embeds the thing it refers to cannot be edited without the thing.
#[derive(Clone, Debug, PartialEq, Eq)]
pub struct Subscription {
    pub id: String,
    pub destination: Subscriber,
    pub filter: Predicate,
    pub required_contract: Option<String>,
    pub transformation: Option<String>,
}

impl Subscription {
    pub fn new(id: &str, destination: Subscriber, filter: Predicate) -> (s: Self)
        ensures
            s.id@ == id@,
            s.destination == destination,
            s.filter == filter,
            s.required_contract is None,
            s.transformation is None,
    {
        Subscription {
            id: owned(id),
            destination,
            filter,
            required_contract: None,
            transformation: None,
        }
    }

    /// The same Subscription, requiring the named Contract.
    pub fn requiring(self, contract: &str) -> (s: Self)
        ensures
            s.id == self.id,
            s.destination == self.destination,
            s.filter == self.filter,
            s.required_contract matches Some(c) && c@ == contract@,
            s.transformation == self.transformation,
    {
        let mut s = self;
        s.required_contract = Some(owned(contract));
        s
    }

    /// The same Subscription, applying the named transformation.
    pub fn transforming(self, transformation: &str) -> (s: Self)
        ensures
            s.id == self.id,
            s.destination == self.destination,
            s.filter == self.filter,
            s.required_contract == self.required_contract,
            s.transformation matches Some(t) && t@ == transformation@,
    {
        let mut s = self;
        s.transformation = Some(owned(transformation));
        s
    }
}

} // verus!
