// Edge cases, exact sentences and the laws on concrete values.

use xmip_core_route::{
    coerce, never_satisfiable, publish, text_of, ContextValue, Dispatch, Predicate, Promoted,
    Subscriber, Subscription, Test, Value,
};

fn orders() -> Promoted {
    Promoted::new()
        .set("MessageType", "Order")
        .set("Amount", "1500")
        .set("Customer", "ACME-0042")
        .set("Urgent", "true")
}

fn text(s: &str) -> Value {
    Value::Text(s.to_string())
}

fn fail(s: &str) -> Test {
    Test::Fail(s.to_string())
}

#[test]
fn value_kinds_are_named() {
    assert_eq!(text("x").kind(), "text");
    assert_eq!(Value::Integer(1).kind(), "integer");
    assert_eq!(Value::Boolean(true).kind(), "boolean");
}

#[test]
fn values_show_quoted_text_and_plain_numbers() {
    assert_eq!(text("").show(), "''");
    assert_eq!(text("Order").show(), "'Order'");
    assert_eq!(Value::Integer(0).show(), "0");
    assert_eq!(Value::Integer(-42).show(), "-42");
    assert_eq!(Value::Integer(1500).show(), "1500");
    assert_eq!(Value::Integer(i64::MAX).show(), "9223372036854775807");
    assert_eq!(Value::Integer(i64::MIN).show(), "-9223372036854775808");
    assert_eq!(Value::Boolean(false).show(), "false");
    assert_eq!(Value::Boolean(true).show(), "true");
}

#[test]
fn text_is_never_coerced_into_something_else() {
    assert_eq!(coerce(" 0012345 ", &text(""), "OrderNo"), Ok(text(" 0012345 ")));
}

#[test]
fn integers_read_as_i64_reads_them_after_trimming() {
    let want = Value::Integer(0);
    assert_eq!(coerce(" 42 ", &want, "N"), Ok(Value::Integer(42)));
    assert_eq!(coerce("+7", &want, "N"), Ok(Value::Integer(7)));
    assert_eq!(coerce("-0", &want, "N"), Ok(Value::Integer(0)));
    assert_eq!(coerce("007", &want, "N"), Ok(Value::Integer(7)));
    assert_eq!(coerce("\u{3000}12\t", &want, "N"), Ok(Value::Integer(12)));
    assert_eq!(
        coerce("9223372036854775807", &want, "N"),
        Ok(Value::Integer(i64::MAX))
    );
    assert_eq!(
        coerce("-9223372036854775808", &want, "N"),
        Ok(Value::Integer(i64::MIN))
    );
}

#[test]
fn what_i64_refuses_is_refused_with_a_sentence() {
    let want = Value::Integer(0);
    for bad in ["", "-", "+", "4 2", "1e3", "--1", "9223372036854775808", "-9223372036854775809", "１"] {
        assert_eq!(
            coerce(bad, &want, "N"),
            Err(format!("N is '{bad}', which is not an integer")),
            "{bad:?}"
        );
        // The library agrees with the standard library on every one of them.
        assert!(bad.trim().parse::<i64>().is_err());
    }
}

#[test]
fn booleans_read_in_any_case_after_trimming() {
    let want = Value::Boolean(false);
    assert_eq!(coerce(" TRUE ", &want, "Urgent"), Ok(Value::Boolean(true)));
    assert_eq!(coerce("False", &want, "Urgent"), Ok(Value::Boolean(false)));
    assert_eq!(
        coerce("yes", &want, "Urgent"),
        Err("Urgent is 'yes', which is not true or false".to_string())
    );
}

#[test]
fn an_unequal_number_says_both_numbers() {
    assert_eq!(
        Predicate::equals("Amount", Value::Integer(1000)).test(&orders()),
        fail("Amount is 1500, not 1000")
    );
}

#[test]
fn a_number_not_greater_says_so() {
    assert_eq!(
        Predicate::greater_than("Amount", Value::Integer(2000)).test(&orders()),
        fail("Amount is 1500, not greater than 2000")
    );
    assert_eq!(
        Predicate::greater_than("Amount", Value::Integer(1500)).test(&orders()),
        fail("Amount is 1500, not greater than 1500")
    );
}

#[test]
fn text_greater_than_is_the_order_of_text() {
    assert!(Predicate::greater_than("Customer", text("ACME")).test(&orders()).passed());
    assert_eq!(
        Predicate::greater_than("Customer", text("B")).test(&orders()),
        fail("Customer is 'ACME-0042', not greater than 'B'")
    );
}

#[test]
fn true_is_greater_than_false() {
    assert!(Predicate::greater_than("Urgent", Value::Boolean(false)).test(&orders()).passed());
    assert!(!Predicate::greater_than("Urgent", Value::Boolean(true)).test(&orders()).passed());
}

#[test]
fn a_boolean_that_is_not_one_is_named() {
    let promoted = Promoted::new().set("Urgent", "maybe");
    assert_eq!(
        Predicate::equals("Urgent", Value::Boolean(true)).test(&promoted),
        fail("Urgent is 'maybe', which is not true or false")
    );
}

#[test]
fn starts_with_declines_with_both_texts() {
    assert_eq!(
        Predicate::starts_with("Customer", "Globex").test(&orders()),
        fail("Customer is 'ACME-0042', which does not start with 'Globex'")
    );
    assert_eq!(
        Predicate::starts_with("Region", "S").test(&orders()),
        fail("nothing promoted Region")
    );
    assert!(Predicate::starts_with("Customer", "").test(&orders()).passed());
}

#[test]
fn present_passes_on_any_text_even_an_empty_one() {
    let promoted = Promoted::new().set("Empty", "");
    assert_eq!(Predicate::present("Empty").test(&promoted), Test::Pass);
    assert_eq!(Predicate::present("Other").test(&promoted), fail("nothing promoted Other"));
}

#[test]
fn all_declines_with_its_first_decline() {
    let filter = Predicate::all(vec![
        Predicate::present("MessageType"),
        Predicate::present("Region"),
        Predicate::equals("MessageType", text("Invoice")),
    ]);
    assert_eq!(filter.test(&orders()), fail("nothing promoted Region"));
}

#[test]
fn an_empty_any_says_there_was_nothing_to_meet() {
    assert_eq!(
        Predicate::any(vec![]).test(&orders()),
        fail("there was no condition to meet")
    );
}

#[test]
fn any_takes_the_message_when_one_condition_does() {
    let filter = Predicate::any(vec![
        Predicate::present("Region"),
        Predicate::present("Customer"),
    ]);
    assert_eq!(filter.test(&orders()), Test::Pass);
    assert_eq!(filter.test(&orders()).reason(), None);
}

#[test]
fn not_of_a_decline_passes() {
    assert!((!Predicate::present("Region")).test(&orders()).passed());
    assert!((!!Predicate::present("Region")).test(&orders()).reason() == Some("the excluded condition held"));
    assert_eq!(
        Predicate::negate(Predicate::present("Customer")).test(&orders()),
        fail("the excluded condition held")
    );
}

#[test]
fn subscribers_write_their_kind_and_name() {
    let process = Subscriber::Process("Approval".to_string());
    let port = Subscriber::SendPort("Billing".to_string());
    let group = Subscriber::SendGroup("Archive".to_string());
    assert_eq!(process.kind(), "Process");
    assert_eq!(port.kind(), "SendPort");
    assert_eq!(group.kind(), "SendGroup");
    assert_eq!(group.name(), "Archive");
    assert_eq!(port.to_string(), "SendPort.Billing");
    assert_eq!(group.to_string(), "SendGroup.Archive");
    assert_eq!(process.duplicate(), process);
}

#[test]
fn a_subscription_names_its_contract_and_transformation() {
    let s = Subscription::new(
        "approval",
        Subscriber::Process("Approval".to_string()),
        Predicate::everything(),
    );
    assert_eq!(s.id, "approval");
    assert_eq!(s.required_contract, None);
    assert_eq!(s.transformation, None);
    let s = s.requiring("Order.v2").transforming("OrderToInvoice");
    assert_eq!(s.required_contract.as_deref(), Some("Order.v2"));
    assert_eq!(s.transformation.as_deref(), Some("OrderToInvoice"));
    assert_eq!(s.id, "approval");
}

#[test]
fn a_routed_message_is_not_retained() {
    assert!(!Dispatch::Routed(2).retains());
    assert!(Dispatch::Unroutable.retains());
}

#[test]
fn every_subscription_is_asked_in_order_and_accounted_for() {
    let subscriptions = vec![
        Subscription::new("a", Subscriber::SendPort("A".into()), Predicate::present("Region")),
        Subscription::new("b", Subscriber::SendPort("B".into()), Predicate::everything()),
        Subscription::new("c", Subscriber::SendPort("C".into()), Predicate::present("Zone")),
        Subscription::new("d", Subscriber::SendGroup("D".into()), Predicate::present("Urgent")),
    ];
    let routing = publish(&orders(), &subscriptions);
    assert_eq!(routing.evaluations.len(), 4);
    let ids: Vec<&str> = routing.evaluations.iter().map(|e| e.subscription_id.as_str()).collect();
    assert_eq!(ids, vec!["a", "b", "c", "d"]);
    assert!(!routing.evaluations[0].matched());
    assert!(routing.evaluations[1].matched());
    assert_eq!(
        routing.destinations(),
        vec![&Subscriber::SendPort("B".into()), &Subscriber::SendGroup("D".into())]
    );
    assert_eq!(
        routing.declines(),
        vec![("a", "nothing promoted Region"), ("c", "nothing promoted Zone")]
    );
    assert_eq!(routing.destinations().len() + routing.declines().len(), 4);
    assert_eq!(routing.dispatch(), Dispatch::Routed(2));
}

#[test]
fn no_subscriptions_means_unroutable() {
    let routing = publish(&orders(), &[]);
    assert!(routing.evaluations.is_empty());
    assert_eq!(routing.dispatch(), Dispatch::Unroutable);
}

#[test]
fn the_deploy_time_check_reports_every_unknown_name_in_reading_order() {
    let promotable = ["A"];
    let subscriptions = vec![
        Subscription::new(
            "s1",
            Subscriber::SendPort("P".into()),
            Predicate::all(vec![
                Predicate::present("X"),
                Predicate::present("A"),
                !Predicate::present("Y"),
            ]),
        ),
        Subscription::new("s2", Subscriber::SendPort("Q".into()), Predicate::present("A")),
        Subscription::new("s3", Subscriber::SendPort("R".into()), Predicate::present("X")),
    ];
    let doomed = never_satisfiable(&promotable, &subscriptions);
    let found: Vec<(&str, &str)> = doomed
        .iter()
        .map(|d| (d.subscription_id.as_str(), d.unknown_property.as_str()))
        .collect();
    assert_eq!(found, vec![("s1", "X"), ("s1", "Y"), ("s3", "X")]);
    assert!(never_satisfiable(&["X", "Y", "A"], &subscriptions).is_empty());
}

#[test]
fn context_promotion_keeps_the_last_entry_and_reads_null_as_empty() {
    let context = vec![
        ("A".to_string(), ContextValue::Text("first".into())),
        ("B".to_string(), ContextValue::Null),
        ("C".to_string(), ContextValue::Decimal("12.50".into())),
        ("A".to_string(), ContextValue::Integer(-3)),
        ("D".to_string(), ContextValue::Bool(false)),
    ];
    let promoted = Promoted::from_context(&context);
    assert_eq!(promoted.names(), vec!["A", "B", "C", "D"]);
    assert_eq!(promoted.get("A"), Some("-3"));
    assert_eq!(promoted.get("B"), Some(""));
    assert_eq!(promoted.get("C"), Some("12.50"));
    assert_eq!(promoted.get("D"), Some("false"));
    assert_eq!(text_of(&ContextValue::Decimal("0.1".into())).as_deref(), Some("0.1"));
    assert_eq!(text_of(&ContextValue::Integer(-12)).as_deref(), Some("-12"));
}

#[test]
fn an_empty_promoted_set_is_empty() {
    let empty = Promoted::new();
    assert!(empty.is_empty());
    assert_eq!(empty.len(), 0);
    assert!(empty.names().is_empty());
    assert_eq!(empty.get("A"), None);
    assert_eq!(Promoted::default(), empty);
    assert!(!orders().is_empty());
    assert_eq!(orders().len(), 4);
}

#[test]
fn names_are_ordered_by_code_point() {
    let promoted = Promoted::new()
        .set("b", "1")
        .set("B", "2")
        .set("é", "3")
        .set("a", "4")
        .set("", "5")
        .set("ab", "6");
    assert_eq!(promoted.names(), vec!["", "B", "a", "ab", "b", "é"]);
    let mut sorted = promoted.names();
    sorted.sort();
    assert_eq!(promoted.names(), sorted);
}

#[test]
fn a_clone_holds_the_same_names_and_texts() {
    let copy = orders().clone();
    assert_eq!(copy, orders());
    assert_eq!(copy.get("Customer"), Some("ACME-0042"));
}

// The laws, on concrete values.

#[test]
fn law_last_promotion_wins_on_values() {
    let a = Promoted::new().set("K", "1").set("K", "2");
    let b = Promoted::new().set("K", "2");
    assert_eq!(a, b);
    assert_eq!(a.get("K"), Some("2"));
}

#[test]
fn law_promotion_order_does_not_matter_on_values() {
    let a = Promoted::new().set("X", "1").set("Y", "2");
    let b = Promoted::new().set("Y", "2").set("X", "1");
    assert_eq!(a, b);
    assert_eq!(a.names(), b.names());
}

#[test]
fn law_test_reads_only_named_properties_on_values() {
    let filter = Predicate::all(vec![
        Predicate::equals("MessageType", text("Order")),
        Predicate::greater_than("Amount", Value::Integer(2000)),
    ]);
    let other = Promoted::new()
        .set("MessageType", "Order")
        .set("Amount", "1500")
        .set("Unrelated", "anything");
    assert_eq!(filter.test(&orders()), filter.test(&other));
}

#[test]
fn law_all_and_any_on_values() {
    let yes = Predicate::present("Amount");
    let no = Predicate::present("Nope");
    assert!(Predicate::all(vec![Predicate::present("Amount"), Predicate::present("Urgent")])
        .test(&orders())
        .passed());
    assert!(!Predicate::all(vec![yes, no]).test(&orders()).passed());
    assert!(Predicate::any(vec![Predicate::present("Nope"), Predicate::present("Amount")])
        .test(&orders())
        .passed());
}

#[test]
fn law_shown_values_read_back_on_values() {
    for n in [0i64, 7, -7, 1500, i64::MAX, i64::MIN] {
        let shown = Value::Integer(n).show();
        assert_eq!(coerce(&shown, &Value::Integer(0), "N"), Ok(Value::Integer(n)));
    }
    for b in [true, false] {
        let shown = Value::Boolean(b).show();
        assert_eq!(coerce(&shown, &Value::Boolean(false), "B"), Ok(Value::Boolean(b)));
    }
}

#[test]
fn integer_reading_agrees_with_the_standard_library() {
    let mut inputs: Vec<String> = vec![
        "12".into(), " 12".into(), "12 ".into(), "+12".into(), "-12".into(), "1_000".into(),
        "0x10".into(), "".into(), " ".into(), "+-3".into(), "00".into(),
        "18446744073709551616".into(), "-9223372036854775808".into(),
    ];
    for code in (0u32..=0x3100).chain([0xfeff_u32, 0x10ffff]) {
        if let Some(c) = char::from_u32(code) {
            inputs.push(format!("{c}5"));
            inputs.push(format!("5{c}"));
        }
    }
    for input in inputs {
        let ours = coerce(&input, &Value::Integer(0), "N");
        match input.trim().parse::<i64>() {
            Ok(n) => assert_eq!(ours, Ok(Value::Integer(n)), "{input:?}"),
            Err(_) => assert!(ours.is_err(), "{input:?}"),
        }
    }
}

#[test]
fn numbers_are_shown_as_the_standard_library_writes_them() {
    for n in [0i64, 1, 9, 10, 99, 100, -1, -10, 123456789, -987654321, i64::MAX, i64::MIN] {
        assert_eq!(Value::Integer(n).show(), n.to_string());
    }
}

#[test]
fn law_a_filter_needing_an_unpromoted_name_declines_on_values() {
    let all = Predicate::all(vec![Predicate::present("Customer"), Predicate::present("Regoin")]);
    assert!(!all.test(&orders()).passed());
    let any = Predicate::any(vec![
        Predicate::present("Regoin"),
        Predicate::equals("Regoin", text("SE")),
    ]);
    assert!(!any.test(&orders()).passed());
}

#[test]
fn a_negated_unpromoted_name_fires_though_the_deploy_time_check_reports_it() {
    let filter = !Predicate::present("Regoin");
    assert!(filter.test(&orders()).passed());
    let subscriptions = vec![Subscription::new("never", Subscriber::SendPort("P".into()), filter)];
    let doomed = never_satisfiable(&["MessageType"], &subscriptions);
    assert_eq!(doomed.len(), 1);
    assert_eq!(doomed[0].unknown_property, "Regoin");
}

#[test]
fn a_cloned_filter_decides_the_same() {
    let filter = Predicate::all(vec![
        Predicate::any(vec![Predicate::present("Region"), Predicate::present("Urgent")]),
        !Predicate::equals("MessageType", text("Invoice")),
        Predicate::greater_than("Amount", Value::Integer(1000)),
        Predicate::starts_with("Customer", "ACME"),
    ]);
    let copy = filter.clone();
    assert_eq!(copy, filter);
    assert_eq!(copy.test(&orders()), filter.test(&orders()));
    assert_eq!(copy.referenced_names(), filter.referenced_names());
    let s = Subscription::new("s", Subscriber::SendPort("P".into()), filter);
    assert_eq!(s.clone(), s);
}
