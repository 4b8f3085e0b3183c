use fabrico11y::text::TextSet;
use fabrico11y::ordering::{
    LogicalTime, OrderRelation, OrderingError, OrderingPoint, PartialOrder, Timestamp,
    TimestampError,
};

fn timestamp(value: &str) -> Timestamp {
    Timestamp::parse(value.to_owned()).expect("test timestamp must be valid")
}

fn point(id: &str, producer: &str, sequence: Option<u64>) -> OrderingPoint {
    OrderingPoint {
        record_id: id.to_owned(),
        producer_id: producer.to_owned(),
        stream_id: "events".to_owned(),
        producer_sequence: sequence,
        logical_time: None,
        parents: TextSet::new(),
        observed_at: None,
        observed_by_at: timestamp("2026-07-20T12:00:00Z"),
        recorded_at: timestamp("2026-07-20T12:00:01Z"),
    }
}

#[test]
fn producer_order_beats_opposing_wall_clock_text() {
    let mut first = point("first", "producer", Some(1));
    first.observed_at = Some(timestamp("2026-07-20T13:00:00Z"));
    let mut second = point("second", "producer", Some(2));
    second.observed_at = Some(timestamp("2026-07-20T11:00:00Z"));
    let order = PartialOrder::new(vec![second, first]).expect("valid order");
    assert_eq!(order.relation("first", "second"), Ok(OrderRelation::Before));
}

#[test]
fn unrelated_records_remain_unknown() {
    let order = PartialOrder::new(vec![
        point("a", "producer-a", None),
        point("b", "producer-b", None),
    ])
    .expect("valid order");
    assert_eq!(order.relation("a", "b"), Ok(OrderRelation::Unknown));
}

#[test]
fn transitive_parentage_is_preserved() {
    let first = point("a", "producer-a", None);
    let mut second = point("b", "producer-b", None);
    second.parents.insert("a".to_owned());
    let mut third = point("c", "producer-c", None);
    third.parents.insert("b".to_owned());
    let order = PartialOrder::new(vec![third, first, second]).expect("valid order");
    assert_eq!(order.relation("a", "c"), Ok(OrderRelation::Before));
}

#[test]
fn equal_logical_positions_are_explicitly_concurrent() {
    let mut first = point("a", "producer-a", None);
    first.logical_time = Some(LogicalTime {
        clock_id: "shared".to_owned(),
        counter: 7,
    });
    let mut second = point("b", "producer-b", None);
    second.logical_time = Some(LogicalTime {
        clock_id: "shared".to_owned(),
        counter: 7,
    });
    let order = PartialOrder::new(vec![first, second]).expect("valid order");
    assert_eq!(order.relation("a", "b"), Ok(OrderRelation::Concurrent));
}

#[test]
fn explicit_parentage_precedes_conflicting_clock_position() {
    let mut parent = point("parent", "producer-a", None);
    parent.logical_time = Some(LogicalTime {
        clock_id: "shared".to_owned(),
        counter: 9,
    });
    let mut child = point("child", "producer-b", None);
    child.logical_time = Some(LogicalTime {
        clock_id: "shared".to_owned(),
        counter: 1,
    });
    child.parents.insert("parent".to_owned());
    let order = PartialOrder::new(vec![child, parent]).expect("valid order");
    assert_eq!(order.relation("parent", "child"), Ok(OrderRelation::Before));
}

#[test]
fn parent_cycles_are_rejected() {
    let mut first = point("a", "producer-a", None);
    first.parents.insert("b".to_owned());
    let mut second = point("b", "producer-b", None);
    second.parents.insert("a".to_owned());
    assert_eq!(
        PartialOrder::new(vec![first, second]).map(|_| ()),
        Err(OrderingError::ParentCycle("a".to_owned()))
    );
}

#[test]
fn relation_is_read_conversely_from_the_other_side() {
    let first = point("a", "producer", Some(3));
    let mut second = point("b", "producer", Some(1));
    second.parents.insert("a".to_owned());
    let order = PartialOrder::new(vec![first, second]).expect("valid order");
    assert_eq!(order.relation("a", "b"), Ok(OrderRelation::Before));
    assert_eq!(order.relation("b", "a"), Ok(OrderRelation::After));
    assert_eq!(order.relation("a", "a"), Ok(OrderRelation::Same));
}

#[test]
fn unknown_records_are_reported_left_first() {
    let order = PartialOrder::new(vec![point("a", "producer", None)]).expect("valid order");
    assert_eq!(
        order.relation("x", "y"),
        Err(OrderingError::UnknownRecord("x".to_owned()))
    );
    assert_eq!(
        order.relation("a", "y"),
        Err(OrderingError::UnknownRecord("y".to_owned()))
    );
}

#[test]
fn duplicate_identities_and_positions_are_rejected_in_input_order() {
    assert_eq!(
        PartialOrder::new(vec![point("a", "p", None), point("a", "q", None)]).map(|_| ()),
        Err(OrderingError::DuplicateRecord("a".to_owned()))
    );
    assert_eq!(
        PartialOrder::new(vec![point("a", "p", Some(4)), point("b", "p", Some(4))]).map(|_| ()),
        Err(OrderingError::DuplicateProducerPosition {
            first: "a".to_owned(),
            second: "b".to_owned(),
        })
    );
    assert!(PartialOrder::new(vec![point("a", "p", Some(4)), point("b", "q", Some(4))]).is_ok());
}

#[test]
fn a_parent_outside_the_order_is_still_reached() {
    let mut child = point("child", "p", None);
    child.parents.insert("elsewhere".to_owned());
    let order = PartialOrder::new(vec![child, point("other", "q", None)]).expect("valid order");
    assert_eq!(order.relation("child", "other"), Ok(OrderRelation::Unknown));
}

#[test]
fn timestamps_keep_their_text_and_reject_non_rfc3339() {
    let stamp = timestamp("2026-07-20T12:00:00+02:00");
    assert_eq!(stamp.as_str(), "2026-07-20T12:00:00+02:00");
    assert_eq!(stamp.instant(), timestamp("2026-07-20T10:00:00Z").instant());
    assert_eq!(
        Timestamp::parse("yesterday".to_owned()),
        Err(TimestampError::InvalidRfc3339("yesterday".to_owned()))
    );
}

#[test]
fn signed_decimal_writes_the_sign() {
    assert_eq!(fabrico11y::text::signed_decimal(-9223372036854775808), "-9223372036854775808");
    assert_eq!(fabrico11y::text::signed_decimal(0), "0");
    assert_eq!(fabrico11y::text::signed_decimal(42), "42");
}

#[test]
fn every_arrangement_of_points_answers_alike() {
    let a = point("a", "producer", Some(1));
    let mut b = point("b", "producer", Some(2));
    b.parents.insert("a".to_owned());
    let c = point("c", "other", None);
    let arrangements = vec![
        vec![a.clone(), b.clone(), c.clone()],
        vec![c.clone(), b.clone(), a.clone()],
        vec![b.clone(), c.clone(), a.clone()],
    ];
    let ids = ["a", "b", "c", "missing"];
    let reference = PartialOrder::new(arrangements[0].clone()).expect("valid order");
    for points in arrangements {
        let order = PartialOrder::new(points).expect("valid order");
        let copy = order.clone();
        for left in ids {
            for right in ids {
                assert_eq!(order.relation(left, right), reference.relation(left, right));
                assert_eq!(copy.relation(left, right), reference.relation(left, right));
            }
        }
    }
    assert_eq!(reference.relation("a", "b"), Ok(OrderRelation::Before));
    assert_eq!(reference.relation("b", "c"), Ok(OrderRelation::Unknown));
}

#[test]
fn a_cycle_is_reported_by_its_least_record_in_every_arrangement() {
    let mut a = point("a", "producer-a", None);
    a.parents.insert("b".to_owned());
    let mut b = point("b", "producer-b", None);
    b.parents.insert("a".to_owned());
    for points in [vec![a.clone(), b.clone()], vec![b.clone(), a.clone()]] {
        assert_eq!(
            PartialOrder::new(points).expect_err("cycle"),
            OrderingError::ParentCycle("a".to_owned())
        );
    }
}
