// End-to-end tests of the crate's public surface: publish, predicates and the
// promoted set together, over one fixture.

use xmip_core_route::{
    never_satisfiable, publish, text_of, ContextValue, Dispatch, Predicate, Promoted, Subscriber,
    Subscription, Test, Value,
};

fn orders() -> Promoted {
    Promoted::new()
        .set("MessageType", "Order")
        .set("Amount", "1500")
        .set("Customer", "ACME-0042")
        .set("Urgent", "true")
}

fn to(id: &str, destination: Subscriber, filter: Predicate) -> Subscription {
    Subscription::new(id, destination, filter)
}

fn send_port(name: &str) -> Subscriber {
    Subscriber::SendPort(name.to_string())
}

#[test]
fn a_matching_subscription_names_its_destination() {
    let subscriptions = vec![to(
        "billing",
        send_port("Billing"),
        Predicate::equals("MessageType", Value::Text("Order".into())),
    )];
    let routing = publish(&orders(), &subscriptions);

    assert_eq!(routing.destinations(), vec![&send_port("Billing")]);
    assert_eq!(routing.dispatch(), Dispatch::Routed(1));
}

#[test]
fn one_message_can_reach_several_destinations() {
    let subscriptions = vec![
        to(
            "billing",
            send_port("Billing"),
            Predicate::equals("MessageType", Value::Text("Order".into())),
        ),
        to("archive", send_port("Archive"), Predicate::everything()),
        to(
            "approval",
            Subscriber::Process("Approval".to_string()),
            Predicate::greater_than("Amount", Value::Integer(1000)),
        ),
    ];
    let routing = publish(&orders(), &subscriptions);

    assert_eq!(routing.destinations().len(), 3);
    assert_eq!(routing.dispatch(), Dispatch::Routed(3));
    assert_eq!(routing.destinations()[2].to_string(), "Process.Approval");
}

#[test]
fn nothing_wanting_it_is_a_disposition_and_keeps_the_message() {
    let subscriptions = vec![to(
        "invoices",
        send_port("Invoices"),
        Predicate::equals("MessageType", Value::Text("Invoice".into())),
    )];
    let routing = publish(&orders(), &subscriptions);

    assert!(routing.destinations().is_empty());
    assert_eq!(routing.dispatch(), Dispatch::Unroutable);
    assert!(routing.dispatch().retains());
}

#[test]
fn a_decline_says_why() {
    let subscriptions = vec![to(
        "invoices",
        send_port("Invoices"),
        Predicate::equals("MessageType", Value::Text("Invoice".into())),
    )];
    let routing = publish(&orders(), &subscriptions);

    assert_eq!(
        routing.declines(),
        vec![("invoices", "MessageType is 'Order', not 'Invoice'")]
    );
}

#[test]
fn a_missing_property_is_named_not_shrugged_at() {
    let subscriptions = vec![to(
        "nordics",
        send_port("Nordics"),
        Predicate::equals("Region", Value::Text("SE".into())),
    )];
    let routing = publish(&orders(), &subscriptions);

    assert_eq!(
        routing.declines(),
        vec![("nordics", "nothing promoted Region")]
    );
}

#[test]
fn the_subscription_states_the_type_and_the_text_is_read_as_it() {
    // Amount was promoted as the text "1500". The filter says integer, so
    // the comparison is numeric.
    assert!(
        Predicate::greater_than("Amount", Value::Integer(900))
            .test(&orders())
            .passed()
    );

    // Lexicographically "1500" is less than "900", which is the wrong
    // answer, and the reason the type belongs on the Subscription.
    assert!(
        !Predicate::greater_than("Amount", Value::Text("900".into()))
            .test(&orders())
            .passed()
    );
}

#[test]
fn a_leading_zero_survives_because_nothing_is_inferred() {
    let promoted = Promoted::new().set("OrderNo", "0012345");

    assert_eq!(promoted.get("OrderNo"), Some("0012345"));
    assert!(
        Predicate::equals("OrderNo", Value::Text("0012345".into()))
            .test(&promoted)
            .passed()
    );
}

#[test]
fn text_that_is_not_a_number_fails_with_a_fixable_sentence() {
    let promoted = Promoted::new().set("Amount", "about ten");

    assert_eq!(
        Predicate::greater_than("Amount", Value::Integer(5)).test(&promoted),
        Test::Fail("Amount is 'about ten', which is not an integer".to_string())
    );
}

#[test]
fn booleans_read_as_written() {
    assert!(
        Predicate::equals("Urgent", Value::Boolean(true))
            .test(&orders())
            .passed()
    );
}

#[test]
fn an_empty_all_takes_everything_and_an_empty_any_takes_nothing() {
    assert!(Predicate::everything().test(&orders()).passed());
    assert!(!Predicate::any(vec![]).test(&orders()).passed());
}

#[test]
fn any_reports_every_reason_it_declined() {
    let filter = Predicate::any(vec![
        Predicate::equals("MessageType", Value::Text("Invoice".into())),
        Predicate::present("Region"),
    ]);

    assert_eq!(
        filter.test(&orders()),
        Test::Fail(
            "MessageType is 'Order', not 'Invoice'; and nothing promoted Region".to_string()
        )
    );
}

#[test]
fn not_excludes() {
    let filter = Predicate::all(vec![
        Predicate::present("MessageType"),
        !Predicate::equals("Customer", Value::Text("ACME-0042".into())),
    ]);

    assert_eq!(
        filter.test(&orders()),
        Test::Fail("the excluded condition held".to_string())
    );
}

#[test]
fn starts_with_reads_the_text_as_text() {
    assert!(
        Predicate::starts_with("Customer", "ACME-")
            .test(&orders())
            .passed()
    );
}

#[test]
fn a_filter_naming_a_property_nothing_promotes_is_found_before_deployment() {
    let promotable = ["MessageType", "Amount", "Customer", "Urgent"];
    let subscriptions = vec![
        to(
            "good",
            send_port("Billing"),
            Predicate::equals("MessageType", Value::Text("Order".into())),
        ),
        // Regoin, not Region. Neither spelling is promoted.
        to(
            "typo",
            send_port("Nordics"),
            Predicate::equals("Regoin", Value::Text("SE".into())),
        ),
    ];

    let doomed = never_satisfiable(&promotable, &subscriptions);

    assert_eq!(doomed.len(), 1);
    assert_eq!(doomed[0].subscription_id, "typo");
    assert_eq!(doomed[0].unknown_property, "Regoin");
}

#[test]
fn a_nested_filter_still_gives_up_every_name_it_reads() {
    let filter = Predicate::all(vec![
        Predicate::any(vec![
            Predicate::present("A"),
            !Predicate::equals("B", Value::Integer(1)),
        ]),
        Predicate::starts_with("C", "x"),
    ]);

    assert_eq!(filter.referenced_names(), vec!["A", "B", "C"]);
}

#[test]
fn the_promoted_set_is_ordered_and_the_last_promotion_wins() {
    let promoted = Promoted::new()
        .set("B", "2")
        .set("A", "1")
        .set("A", "1-corrected");

    assert_eq!(promoted.names(), vec!["A", "B"]);
    assert_eq!(promoted.get("A"), Some("1-corrected"));
    assert_eq!(promoted.len(), 2);
}

#[test]
fn promotion_arrives_from_context_as_text() {
    let context = vec![
        ("OrderNo".to_string(), ContextValue::Text("0012345".into())),
        ("Amount".to_string(), ContextValue::Integer(1500)),
        ("Urgent".to_string(), ContextValue::Bool(true)),
        ("Blob".to_string(), ContextValue::Binary(vec![0, 1, 2])),
    ];

    let promoted = Promoted::from_context(&context);

    assert_eq!(promoted.get("OrderNo"), Some("0012345"));
    assert_eq!(promoted.get("Amount"), Some("1500"));
    assert_eq!(promoted.get("Urgent"), Some("true"));
    assert_eq!(promoted.get("Blob"), None, "bytes are not routable as text");
}

#[test]
fn text_of_renders_what_a_filter_compares_and_declines_bytes_and_null() {
    assert_eq!(
        text_of(&ContextValue::Text("Order".into())).as_deref(),
        Some("Order")
    );
    assert_eq!(text_of(&ContextValue::Bool(true)).as_deref(), Some("true"));
    assert_eq!(text_of(&ContextValue::Integer(12)).as_deref(), Some("12"));
    assert_eq!(text_of(&ContextValue::Null), None);
    assert_eq!(text_of(&ContextValue::Binary(vec![1, 2])), None);
}
