//! Publication, subscription and dispatch: a Message is published once, zero
//! or more Subscriptions match it, and each match names a destination.
//!
//! - Matching is a pure function over the promoted set of one Message, so the
//!   same function answers questions at deploy time ([`never_satisfiable`]).
//! - No subscriber is a disposition, not an exception: [`Dispatch::Unroutable`],
//!   and the Message is kept for retention.
//! - Every decision explains itself: [`Routing::declines`] says why each
//!   Subscription passed on the Message.
//! - Promoted values are never guessed: a promoted text is read as the type the
//!   Subscription states ([`coerce`]), so "0012345" keeps its leading zeros.

pub mod never_fires;
pub mod predicate;
pub mod promoted;
pub mod routing;
pub mod subscription;
pub mod text;
pub mod value;

pub use never_fires::{NeverFires, never_satisfiable};
pub use predicate::{Outcome, Predicate, Test};
pub use promoted::{ContextValue, Promoted, text_of};
pub use routing::{Dispatch, Evaluation, Routing, publish};
pub use subscription::{Subscriber, Subscription};
pub use value::{Datum, Value, coerce};
