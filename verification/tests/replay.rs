use std::collections::BTreeMap;

use fabrico11y::ordering::{LogicalTime, OrderingError, Timestamp};
use fabrico11y::replay::{CoreError, Disposition, EvidenceState};
use fabrico11y::schema::{
    Correction, CorrectionOperation, EpistemicClass, EvidenceRecord, Integrity, Interpretation,
    Observation, Origin, Producer, Relations, SchemaError,
};
use fabrico11y::text::TextSet;

fn timestamp(value: &str) -> Timestamp {
    Timestamp::parse(value.to_owned()).expect("test timestamp must be valid")
}

fn set(values: &[&str]) -> TextSet {
    let mut set = TextSet::new();
    for value in values {
        set.insert((*value).to_owned());
    }
    set
}

fn observation(id: &str) -> Observation {
    Observation {
        api_version: "fabric.observation/v1".to_owned(),
        observation_id: id.to_owned(),
        epistemic_class: EpistemicClass::ObservedFact,
        interpretation: Interpretation::ObservedFact,
        producer: Producer {
            producer_id: "checkout-api".to_owned(),
            stream_id: "trace".to_owned(),
        },
        observed_at: Some(timestamp("2026-07-20T14:59:58Z")),
        observed_by_at: timestamp("2026-07-20T14:59:59Z"),
        recorded_at: timestamp("2026-07-20T15:00:00Z"),
        producer_sequence: None,
        logical_time: Some(LogicalTime {
            clock_id: "checkout-clock".to_owned(),
            counter: 94,
        }),
        relations: Relations {
            parents: TextSet::new(),
            links: TextSet::new(),
            correlations: TextSet::new(),
        },
        payload: serde_json::Value::Null,
        payload_ref: None,
        integrity: Integrity {
            algorithm: "sha256".to_owned(),
            digest: "a".repeat(64),
        },
        classification: "internal".to_owned(),
        origin: Origin {
            source_type: "service".to_owned(),
            source_id: "checkout-api".to_owned(),
            schema: "checkout.v1".to_owned(),
            authority: None,
        },
        attributes: BTreeMap::new(),
    }
}

fn correction(
    id: &str,
    operation: CorrectionOperation,
    targets: &[&str],
    replacements: Option<&[&str]>,
    qualification: Option<&str>,
) -> Correction {
    Correction {
        api_version: "fabric.correction/v1".to_owned(),
        correction_id: id.to_owned(),
        producer: Producer {
            producer_id: "review-service".to_owned(),
            stream_id: "corrections".to_owned(),
        },
        observed_by_at: timestamp("2026-07-20T15:01:00Z"),
        recorded_at: timestamp("2026-07-20T15:01:01Z"),
        producer_sequence: None,
        logical_time: Some(LogicalTime {
            clock_id: "checkout-clock".to_owned(),
            counter: 95,
        }),
        operation,
        targets: set(targets),
        replacement_ids: replacements.map(set),
        qualification: qualification.map(str::to_owned),
        reason: "reviewed evidence".to_owned(),
        provenance: TextSet::new(),
        classification: "internal".to_owned(),
    }
}

fn obs(id: &str) -> EvidenceRecord {
    EvidenceRecord::from_observation(observation(id))
}

fn state_of<'a>(state: &'a EvidenceState, id: &str) -> &'a fabrico11y::replay::ObservationState {
    state.observation(id).expect("observation is in the state")
}

fn permutations<T: Clone>(values: Vec<T>) -> Vec<Vec<T>> {
    fn recurse<T: Clone>(values: &mut [T], start: usize, output: &mut Vec<Vec<T>>) {
        if start == values.len() {
            output.push(values.to_vec());
            return;
        }
        for index in start..values.len() {
            values.swap(start, index);
            recurse(values, start + 1, output);
            values.swap(start, index);
        }
    }
    let mut values = values;
    let mut output = Vec::new();
    recurse(&mut values, 0, &mut output);
    output
}

fn items(set: &TextSet) -> Vec<String> {
    set.items().clone()
}

#[test]
fn operations_have_distinct_results_and_preserve_history() {
    let records = vec![
        obs("retracted"),
        obs("old"),
        obs("new"),
        obs("qualified"),
        obs("duplicate"),
        obs("canonical"),
        EvidenceRecord::Correction(correction(
            "corr-retract",
            CorrectionOperation::Retraction,
            &["retracted"],
            None,
            None,
        )),
        EvidenceRecord::Correction(correction(
            "corr-replace",
            CorrectionOperation::Replacement,
            &["old"],
            Some(&["new"]),
            None,
        )),
        EvidenceRecord::Correction(correction(
            "corr-qualify",
            CorrectionOperation::Qualification,
            &["qualified"],
            None,
            Some("only within the test window"),
        )),
        EvidenceRecord::Correction(correction(
            "corr-dedup",
            CorrectionOperation::Deduplication,
            &["duplicate", "canonical"],
            Some(&["canonical"]),
            None,
        )),
    ];
    let state = EvidenceState::replay(records).expect("history replays");
    assert_eq!(state_of(&state, "retracted").disposition, Disposition::Retracted);
    assert_eq!(
        state_of(&state, "old").disposition,
        Disposition::Replaced {
            replacement_ids: set(&["new"])
        }
    );
    assert_eq!(
        items(&state_of(&state, "qualified").qualifications),
        vec!["only within the test window".to_owned()]
    );
    assert_eq!(
        state_of(&state, "duplicate").disposition,
        Disposition::Duplicate {
            canonical_id: "canonical".to_owned()
        }
    );
    assert_eq!(state_of(&state, "canonical").disposition, Disposition::Active);
    assert_eq!(state.corrections.len(), 4);
}

#[test]
fn every_permutation_replays_to_canonical_equivalent_state() {
    let records = vec![
        obs("old"),
        obs("new"),
        EvidenceRecord::Correction(correction(
            "corr-replace",
            CorrectionOperation::Replacement,
            &["old"],
            Some(&["new"]),
            None,
        )),
        EvidenceRecord::Correction(correction(
            "corr-qualify",
            CorrectionOperation::Qualification,
            &["new"],
            None,
            Some("qualified result"),
        )),
    ];
    let expected = EvidenceState::replay(records.clone()).expect("baseline replay");
    for permutation in permutations(records) {
        let actual = EvidenceState::replay(permutation).expect("permuted replay");
        assert_eq!(actual.observations, expected.observations);
        assert_eq!(actual.corrections, expected.corrections);
        assert_eq!(actual.frontiers, expected.frontiers);
        assert_eq!(actual.conflicts, expected.conflicts);
    }
}

#[test]
fn correction_precedence_is_explicit_and_preserves_qualifications() {
    let records = vec![
        obs("target"),
        obs("replacement"),
        obs("canonical"),
        EvidenceRecord::Correction(correction(
            "corr-replace",
            CorrectionOperation::Replacement,
            &["target"],
            Some(&["replacement"]),
            None,
        )),
        EvidenceRecord::Correction(correction(
            "corr-dedup",
            CorrectionOperation::Deduplication,
            &["target", "canonical"],
            Some(&["canonical"]),
            None,
        )),
        EvidenceRecord::Correction(correction(
            "corr-qualify",
            CorrectionOperation::Qualification,
            &["target"],
            None,
            Some("retained context"),
        )),
        EvidenceRecord::Correction(correction(
            "corr-retract",
            CorrectionOperation::Retraction,
            &["target"],
            None,
            None,
        )),
    ];
    let state = EvidenceState::replay(records).expect("correction set replays");
    let target = state_of(&state, "target");
    assert_eq!(target.disposition, Disposition::Retracted);
    assert_eq!(items(&target.qualifications), vec!["retained context".to_owned()]);
    assert_eq!(
        items(&target.correction_ids),
        vec![
            "corr-dedup".to_owned(),
            "corr-qualify".to_owned(),
            "corr-replace".to_owned(),
            "corr-retract".to_owned(),
        ]
    );
}

#[test]
fn missing_replacement_is_typed_and_deterministic() {
    let error = EvidenceState::replay(vec![
        obs("old"),
        EvidenceRecord::Correction(correction(
            "corr",
            CorrectionOperation::Replacement,
            &["old"],
            Some(&["missing"]),
            None,
        )),
    ])
    .expect_err("missing replacement must fail");
    assert_eq!(
        error,
        CoreError::MissingReplacement {
            correction_id: "corr".to_owned(),
            replacement_id: "missing".to_owned()
        }
    );
}

#[test]
fn forward_target_by_logical_time_is_typed_and_permutation_invariant() {
    let target = observation("target");
    let mut correction = correction("corr", CorrectionOperation::Retraction, &["target"], None, None);
    correction
        .logical_time
        .as_mut()
        .expect("correction logical time")
        .counter = 93;
    let records = vec![
        EvidenceRecord::from_observation(target),
        EvidenceRecord::Correction(correction),
    ];
    let expected = CoreError::ForwardTarget {
        correction_id: "corr".to_owned(),
        target_id: "target".to_owned(),
    };
    for permutation in permutations(records) {
        assert_eq!(
            EvidenceState::replay(permutation).expect_err("forward target must fail"),
            expected
        );
    }
}

#[test]
fn forward_replacement_by_producer_sequence_is_typed() {
    let mut target = observation("target");
    target.logical_time = None;
    target.producer_sequence = Some(40);
    let mut replacement = observation("replacement");
    replacement.logical_time = None;
    replacement.producer_sequence = Some(42);
    let mut correction = correction(
        "corr",
        CorrectionOperation::Replacement,
        &["target"],
        Some(&["replacement"]),
        None,
    );
    correction.producer = target.producer.clone();
    correction.logical_time = None;
    correction.producer_sequence = Some(41);

    let error = EvidenceState::replay(vec![
        EvidenceRecord::Correction(correction),
        EvidenceRecord::from_observation(replacement),
        EvidenceRecord::from_observation(target),
    ])
    .expect_err("forward replacement must fail");
    assert_eq!(
        error,
        CoreError::ForwardReplacement {
            correction_id: "corr".to_owned(),
            replacement_id: "replacement".to_owned(),
        }
    );
}

#[test]
fn explicit_parentage_uses_the_same_forward_rule() {
    let mut target = observation("target");
    target.logical_time = None;
    target.relations.parents.insert("corr".to_owned());
    let mut correction = correction("corr", CorrectionOperation::Retraction, &["target"], None, None);
    correction.logical_time = None;

    assert_eq!(
        EvidenceState::replay(vec![
            EvidenceRecord::from_observation(target),
            EvidenceRecord::Correction(correction),
        ])
        .expect_err("a child observation is a forward target"),
        CoreError::ForwardTarget {
            correction_id: "corr".to_owned(),
            target_id: "target".to_owned(),
        }
    );
}

#[test]
fn concurrent_and_unknown_targets_are_not_misclassified_as_forward() {
    let mut concurrent_target = observation("concurrent");
    concurrent_target.producer_sequence = None;
    let mut concurrent_correction = correction(
        "corr-concurrent",
        CorrectionOperation::Retraction,
        &["concurrent"],
        None,
        None,
    );
    concurrent_correction
        .logical_time
        .as_mut()
        .expect("correction logical time")
        .counter = concurrent_target
        .logical_time
        .as_ref()
        .expect("target logical time")
        .counter;
    assert!(EvidenceState::replay(vec![
        EvidenceRecord::from_observation(concurrent_target),
        EvidenceRecord::Correction(concurrent_correction),
    ])
    .is_ok());

    let mut unknown_target = observation("unknown");
    unknown_target.logical_time = None;
    unknown_target.producer_sequence = None;
    let mut unknown_correction = correction(
        "corr-unknown",
        CorrectionOperation::Retraction,
        &["unknown"],
        None,
        None,
    );
    unknown_correction.logical_time = None;
    unknown_correction.producer_sequence = None;
    assert!(EvidenceState::replay(vec![
        EvidenceRecord::Correction(unknown_correction),
        EvidenceRecord::from_observation(unknown_target),
    ])
    .is_ok());
}

#[test]
fn class_and_interpretation_remain_revisable_data() {
    let mut record = observation("assumption");
    record.epistemic_class = EpistemicClass::Assumption;
    record.interpretation = Interpretation::Assumption {
        statement: "declared premise".to_owned(),
    };
    let state = EvidenceState::replay(vec![EvidenceRecord::from_observation(record)])
        .expect("assumption replays");
    assert!(state.observation("assumption").is_some());
}

#[test]
fn replacement_sets_that_differ_are_kept_as_a_conflict() {
    let records = vec![
        obs("old"),
        obs("new-a"),
        obs("new-b"),
        EvidenceRecord::Correction(correction(
            "corr-a",
            CorrectionOperation::Replacement,
            &["old"],
            Some(&["new-a"]),
            None,
        )),
        EvidenceRecord::Correction(correction(
            "corr-b",
            CorrectionOperation::Replacement,
            &["old"],
            Some(&["new-b"]),
            None,
        )),
    ];
    let state = EvidenceState::replay(records).expect("conflicting replacements replay");
    assert_eq!(state.conflicts.len(), 1);
    let conflict = state
        .conflict("conflict:replacement:old")
        .expect("replacement conflict");
    assert_eq!(items(&conflict.record_ids), vec!["new-a".to_owned(), "new-b".to_owned()]);
    assert_eq!(
        conflict.description,
        "multiple corrections name different replacement sets"
    );
    assert_eq!(
        state_of(&state, "old").disposition,
        Disposition::Replaced {
            replacement_ids: set(&["new-a", "new-b"])
        }
    );
}

#[test]
fn deduplication_canonicals_that_differ_are_kept_as_a_conflict_and_the_least_wins() {
    let records = vec![
        obs("dup"),
        obs("canon-b"),
        obs("canon-a"),
        EvidenceRecord::Correction(correction(
            "corr-b",
            CorrectionOperation::Deduplication,
            &["dup"],
            Some(&["canon-b"]),
            None,
        )),
        EvidenceRecord::Correction(correction(
            "corr-a",
            CorrectionOperation::Deduplication,
            &["dup"],
            Some(&["canon-a"]),
            None,
        )),
    ];
    let state = EvidenceState::replay(records).expect("conflicting deduplications replay");
    let conflict = state
        .conflict("conflict:deduplication:dup")
        .expect("deduplication conflict");
    assert_eq!(
        items(&conflict.record_ids),
        vec!["canon-a".to_owned(), "canon-b".to_owned()]
    );
    assert_eq!(
        conflict.description,
        "multiple deduplication corrections name different canonical records"
    );
    assert_eq!(
        state_of(&state, "dup").disposition,
        Disposition::Duplicate {
            canonical_id: "canon-a".to_owned()
        }
    );
    assert_eq!(
        items(&state.active_observation_ids()),
        vec!["canon-a".to_owned(), "canon-b".to_owned()]
    );
}

#[test]
fn conflicts_are_ordered_by_conflict_id() {
    let records = vec![
        obs("a"),
        obs("b"),
        obs("c"),
        obs("d"),
        EvidenceRecord::Correction(correction(
            "r1",
            CorrectionOperation::Replacement,
            &["a"],
            Some(&["b"]),
            None,
        )),
        EvidenceRecord::Correction(correction(
            "r2",
            CorrectionOperation::Replacement,
            &["a"],
            Some(&["c"]),
            None,
        )),
        EvidenceRecord::Correction(correction(
            "d1",
            CorrectionOperation::Deduplication,
            &["d"],
            Some(&["b"]),
            None,
        )),
        EvidenceRecord::Correction(correction(
            "d2",
            CorrectionOperation::Deduplication,
            &["d"],
            Some(&["c"]),
            None,
        )),
    ];
    let state = EvidenceState::replay(records).expect("history replays");
    let ids: Vec<&str> = state.conflicts.iter().map(|c| c.conflict_id.as_str()).collect();
    assert_eq!(ids, vec!["conflict:deduplication:d", "conflict:replacement:a"]);
}

#[test]
fn duplicate_record_ids_are_rejected_on_intake() {
    let error = EvidenceState::replay(vec![obs("same"), obs("other"), obs("same")])
        .expect_err("duplicate ids must fail");
    assert_eq!(error, CoreError::DuplicateRecord("same".to_owned()));
}

#[test]
fn schema_failures_are_reported_for_the_first_invalid_record() {
    let mut bad = observation("bad");
    bad.classification = "Internal".to_owned();
    let error = EvidenceState::replay(vec![obs("good"), EvidenceRecord::from_observation(bad)])
        .expect_err("invalid record must fail");
    assert_eq!(error, CoreError::Schema(SchemaError::InvalidClassification));
    assert_eq!(
        error.message(),
        "schema validation failed: classification must be a lowercase policy label"
    );
}

#[test]
fn missing_target_is_typed() {
    let error = EvidenceState::replay(vec![EvidenceRecord::Correction(correction(
        "corr",
        CorrectionOperation::Retraction,
        &["absent"],
        None,
        None,
    ))])
    .expect_err("missing target must fail");
    assert_eq!(
        error,
        CoreError::MissingTarget {
            correction_id: "corr".to_owned(),
            target_id: "absent".to_owned()
        }
    );
    assert_eq!(error.message(), "correction corr targets missing observation absent");
}

#[test]
fn ordering_conflicts_surface_as_ordering_errors() {
    let mut first = observation("first");
    first.producer_sequence = Some(7);
    let mut second = observation("second");
    second.producer_sequence = Some(7);
    let error = EvidenceState::replay(vec![
        EvidenceRecord::from_observation(first),
        EvidenceRecord::from_observation(second),
    ])
    .expect_err("shared producer position must fail");
    assert!(matches!(
        error,
        CoreError::Order(OrderingError::DuplicateProducerPosition { .. })
    ));
}

#[test]
fn corrections_keep_their_targets_in_the_state() {
    let records = vec![
        obs("target"),
        EvidenceRecord::Correction(correction(
            "corr-qualify",
            CorrectionOperation::Qualification,
            &["target"],
            None,
            Some("narrower"),
        )),
    ];
    let state = EvidenceState::replay(records).expect("history replays");
    let target = state_of(&state, "target");
    assert_eq!(target.record, observation("target"));
    assert_eq!(target.disposition, Disposition::Active);
    assert_eq!(items(&target.correction_ids), vec!["corr-qualify".to_owned()]);
    assert_eq!(items(&state.active_observation_ids()), vec!["target".to_owned()]);
}

#[test]
fn refusals_do_not_depend_on_record_order() {
    let mut first = correction("c-1", CorrectionOperation::Retraction, &["a"], None, None);
    first.api_version = "fabric.correction/v9".to_owned();
    let mut second = correction("c-2", CorrectionOperation::Retraction, &["a"], None, None);
    second.api_version = "fabric.correction/v8".to_owned();
    let expected = CoreError::Schema(SchemaError::UnsupportedVersion {
        actual: "fabric.correction/v9".to_owned(),
        expected: "fabric.correction/v1",
    });
    let records = vec![
        obs("a"),
        EvidenceRecord::Correction(first),
        EvidenceRecord::Correction(second),
    ];
    for order in permutations(records) {
        let error = EvidenceState::replay(order).expect_err("invalid corrections must fail");
        assert_eq!(error, expected);
    }
}

#[test]
fn the_least_repeated_id_is_reported_in_every_order() {
    let mut bad = observation("a-bad");
    bad.classification = "Internal".to_owned();
    let records = vec![
        obs("b"),
        obs("c"),
        obs("b"),
        obs("c"),
        EvidenceRecord::from_observation(bad),
    ];
    for order in permutations(records) {
        let error = EvidenceState::replay(order).expect_err("duplicate ids must fail");
        assert_eq!(error, CoreError::DuplicateRecord("b".to_owned()));
    }
}
