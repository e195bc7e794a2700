# xmip-core-route

Publication, subscription and dispatch, verified with Verus. A Message's
promoted properties are published once against every Subscription; each
Subscription's filter passes or declines with a sentence that says why; the
matches name destinations, and a Message nobody wants is unroutable and kept.

Layout:

- `src/text.rs`: characters, decimal numbers, white space, integer reading
  and the order of names, each with its specification.
- `src/value.rs`: the values a filter compares against, and how a promoted
  text is read as the type a Subscription states.
- `src/promoted.rs`: the promoted set of one Message, kept in name order, and
  promotion from a Message's context.
- `src/predicate.rs`: filters, their outcomes and the names they read.
- `src/subscription.rs`, `src/routing.rs`: Subscriptions, publication and
  dispatch.
- `src/never_fires.rs`: the deploy-time check for names nothing promotes.
- `app/lib.rs`: the serialised (serde) form of the artifacts, with
  conversions to and from the library's types.
- `tests/`: the scenarios and edge cases, run against the compiled library.
