use std::collections::BTreeMap;

use fabrico11y::ordering::{LogicalTime, Timestamp};
use fabrico11y::schema::{
    producers_unique, Answer, AnswerAssumption, AnswerConflict, Correction, CorrectionOperation,
    Coverage, CoverageStatus, Derivation, EpistemicClass, EvidenceRecord, Frontier,
    FrontierReference, Integrity, Interpretation, Observation, Origin, Producer, ProducerState,
    ProvenanceItem, Relations, Sampling, SamplingMode, SchemaError, SequenceGap, SourceCutoff,
};
use fabrico11y::text::TextSet;

fn timestamp(value: &str) -> Timestamp {
    Timestamp::parse(value.to_owned()).expect("fixture timestamp")
}

fn set(values: &[&str]) -> TextSet {
    TextSet::from_values(values.iter().map(|value| (*value).to_owned()).collect())
}

fn producer(producer_id: &str, stream_id: &str) -> Producer {
    Producer {
        producer_id: producer_id.to_owned(),
        stream_id: stream_id.to_owned(),
    }
}

fn observation() -> Observation {
    Observation {
        api_version: "fabric.observation/v1".to_owned(),
        observation_id: "obs-0001".to_owned(),
        epistemic_class: EpistemicClass::ObservedFact,
        interpretation: Interpretation::ObservedFact,
        producer: producer("checkout-api", "trace"),
        observed_at: Some(timestamp("2026-07-20T14:59:58Z")),
        observed_by_at: timestamp("2026-07-20T14:59:59Z"),
        recorded_at: timestamp("2026-07-20T15:00:00Z"),
        producer_sequence: Some(41),
        logical_time: Some(LogicalTime {
            clock_id: "checkout-clock".to_owned(),
            counter: 94,
        }),
        relations: Relations {
            parents: TextSet::new(),
            links: set(&["obs-bootstrap"]),
            correlations: TextSet::new(),
        },
        payload: serde_json::Value::Bool(true),
        payload_ref: Some("blob://checkout/1".to_owned()),
        integrity: Integrity {
            algorithm: "sha256".to_owned(),
            digest: "a".repeat(64),
        },
        classification: "internal".to_owned(),
        origin: Origin {
            source_type: "service".to_owned(),
            source_id: "checkout-api".to_owned(),
            schema: "checkout.v1".to_owned(),
            authority: None,
        },
        attributes: BTreeMap::new(),
    }
}

fn correction() -> Correction {
    Correction {
        api_version: "fabric.correction/v1".to_owned(),
        correction_id: "corr-0001".to_owned(),
        producer: producer("review-service", "corrections"),
        observed_by_at: timestamp("2026-07-20T15:01:00Z"),
        recorded_at: timestamp("2026-07-20T15:01:01Z"),
        producer_sequence: None,
        logical_time: Some(LogicalTime {
            clock_id: "checkout-clock".to_owned(),
            counter: 95,
        }),
        operation: CorrectionOperation::Replacement,
        targets: set(&["obs-0001"]),
        replacement_ids: Some(set(&["obs-0002"])),
        qualification: None,
        reason: "reviewed evidence".to_owned(),
        provenance: set(&["obs-0001"]),
        classification: "internal".to_owned(),
    }
}

fn frontier() -> Frontier {
    Frontier {
        api_version: "fabric.frontier/v1".to_owned(),
        frontier_id: "frontier-0001".to_owned(),
        producer: producer("checkout-api", "trace"),
        as_of_recorded_at: timestamp("2026-07-20T15:02:00Z"),
        producer_sequence_through: Some(41),
        logical_time_through: Some(LogicalTime {
            clock_id: "checkout-clock".to_owned(),
            counter: 94,
        }),
        known_gaps: vec![SequenceGap {
            start: 10,
            end: 12,
            reason: "collector restart".to_owned(),
        }],
        retention_start: None,
        sampling: Sampling {
            mode: SamplingMode::Sampled,
            rate_bits: Some(0.5f64.to_bits()),
        },
        producer_state: ProducerState::Active,
        classification: "internal".to_owned(),
    }
}

fn answer() -> Answer {
    Answer {
        api_version: "fabric.answer/v1".to_owned(),
        answer_id: "answer-0001".to_owned(),
        evaluated_at: timestamp("2026-07-20T15:03:00Z"),
        result: serde_json::Value::Null,
        provenance: vec![ProvenanceItem {
            record_id: "obs-0001".to_owned(),
            role: "input".to_owned(),
            fields: None,
        }],
        source_cutoff: SourceCutoff {
            recorded_at: timestamp("2026-07-20T15:02:00Z"),
            segment_ids: set(&["seg-0001"]),
        },
        frontiers: vec![FrontierReference {
            frontier_id: "frontier-0001".to_owned(),
            producer: producer("checkout-api", "trace"),
        }],
        missing_sources: vec![producer("payments-api", "trace")],
        coverage: Coverage {
            status: CoverageStatus::Partial,
            requested_sources: vec![producer("checkout-api", "trace"), producer("payments-api", "trace")],
            covered_sources: vec![producer("checkout-api", "trace")],
            notes: vec!["payments stream not yet reported".to_owned()],
        },
        assumptions: vec![AnswerAssumption {
            assumption_id: "assume-clock".to_owned(),
            statement: "producer clocks are monotonic".to_owned(),
        }],
        conflicts: vec![AnswerConflict {
            conflict_id: "conflict-0001".to_owned(),
            record_ids: set(&["obs-0001", "obs-0002"]),
            description: "two observations disagree".to_owned(),
        }],
        derivation: Derivation {
            name: "checkout-latency".to_owned(),
            version: "1".to_owned(),
            input_ids: set(&["obs-0001"]),
            parameters: BTreeMap::new(),
        },
    }
}

#[test]
fn canonical_contract_fixtures_deserialize_and_validate() {
    observation().validate().expect("valid observation");
    correction().validate().expect("valid correction");
    frontier().validate().expect("valid frontier");
    answer().validate().expect("valid answer");
    EvidenceRecord::from_observation(observation())
        .validate()
        .expect("valid observation record");
}

#[test]
fn class_mismatch_is_rejected_by_typed_validation() {
    let mut observation = observation();
    observation.epistemic_class = EpistemicClass::Assumption;
    assert_eq!(observation.validate(), Err(SchemaError::MixedEpistemicClass));
}

#[test]
fn unique_arrays_reject_duplicates_instead_of_collapsing_them() {
    let links = vec!["obs-bootstrap".to_owned(), "obs-bootstrap".to_owned()];
    assert!(TextSet::from_unique(links).is_none());
    let distinct = TextSet::from_unique(vec!["obs-b".to_owned(), "obs-a".to_owned()])
        .expect("distinct values");
    assert_eq!(distinct.items().clone(), vec!["obs-a".to_owned(), "obs-b".to_owned()]);

    let producer = producer("checkout-api", "trace");
    assert!(!producers_unique(&vec![producer.clone(), producer.clone()]));
    assert!(producers_unique(&vec![
        producer.clone(),
        self::producer("checkout-api", "metrics")
    ]));
}

#[test]
fn identifiers_and_classifications_follow_normative_grammar() {
    let mut invalid_identifier = observation();
    invalid_identifier.observation_id = "contains spaces".to_owned();
    assert_eq!(
        invalid_identifier.validate(),
        Err(SchemaError::InvalidIdentifier("observation_id"))
    );

    let mut invalid_classification = observation();
    invalid_classification.classification = "Internal".to_owned();
    assert_eq!(
        invalid_classification.validate(),
        Err(SchemaError::InvalidClassification)
    );
}

#[test]
fn versions_and_integrity_are_checked() {
    let mut wrong_version = observation();
    wrong_version.api_version = "fabric.observation/v2".to_owned();
    let error = wrong_version.validate().expect_err("unsupported version");
    assert_eq!(
        error,
        SchemaError::UnsupportedVersion {
            actual: "fabric.observation/v2".to_owned(),
            expected: "fabric.observation/v1"
        }
    );
    assert_eq!(
        error.message(),
        "unsupported envelope version fabric.observation/v2; expected fabric.observation/v1"
    );

    let mut bad_digest = observation();
    bad_digest.integrity.digest = "A".repeat(64);
    assert_eq!(bad_digest.validate(), Err(SchemaError::InvalidIntegrity));

    let mut empty_reference = observation();
    empty_reference.payload_ref = Some(String::new());
    assert_eq!(
        empty_reference.validate(),
        Err(SchemaError::EmptyField("payload_ref"))
    );
}

#[test]
fn correction_operations_require_their_fields() {
    let mut missing_replacements = correction();
    missing_replacements.replacement_ids = None;
    assert_eq!(
        missing_replacements.validate(),
        Err(SchemaError::MissingField("replacement_ids"))
    );

    let mut qualification = correction();
    qualification.operation = CorrectionOperation::Qualification;
    qualification.replacement_ids = None;
    assert_eq!(
        qualification.validate(),
        Err(SchemaError::MissingField("qualification"))
    );
    qualification.qualification = Some("within the window".to_owned());
    assert_eq!(qualification.validate(), Ok(()));

    let mut deduplication = correction();
    deduplication.operation = CorrectionOperation::Deduplication;
    deduplication.replacement_ids = Some(set(&["obs-0002", "obs-0003"]));
    assert_eq!(
        deduplication.validate(),
        Err(SchemaError::DeduplicationCanonicalCount)
    );

    let mut retraction = correction();
    retraction.operation = CorrectionOperation::Retraction;
    assert_eq!(
        retraction.validate(),
        Err(SchemaError::UnexpectedField("replacement_ids"))
    );

    let mut no_targets = correction();
    no_targets.targets = TextSet::new();
    assert_eq!(no_targets.validate(), Err(SchemaError::MissingField("targets")));
}

#[test]
fn frontier_sampling_and_gaps_are_checked() {
    let mut unsampled_with_rate = frontier();
    unsampled_with_rate.sampling = Sampling {
        mode: SamplingMode::Complete,
        rate_bits: Some(1.0f64.to_bits()),
    };
    assert_eq!(unsampled_with_rate.validate(), Err(SchemaError::InvalidSampling));

    let mut rate_above_one = frontier();
    rate_above_one.sampling.rate_bits = Some(1.5f64.to_bits());
    assert_eq!(rate_above_one.validate(), Err(SchemaError::InvalidSampling));

    let mut full_rate = frontier();
    full_rate.sampling.rate_bits = Some(1.0f64.to_bits());
    assert_eq!(full_rate.validate(), Ok(()));

    let mut reversed_gap = frontier();
    reversed_gap.known_gaps[0].start = 13;
    let error = reversed_gap.validate().expect_err("reversed gap");
    assert_eq!(error, SchemaError::InvalidSequenceGap { start: 13, end: 12 });
    assert_eq!(error.message(), "invalid sequence gap 13..12");
}

#[test]
fn interpretations_carry_their_evidence() {
    let mut correlation = observation();
    correlation.epistemic_class = EpistemicClass::Correlation;
    correlation.interpretation = Interpretation::Correlation {
        related_ids: set(&["obs-0002"]),
    };
    assert_eq!(correlation.validate(), Err(SchemaError::TooFewRelatedRecords));

    let mut assumption = observation();
    assumption.epistemic_class = EpistemicClass::Assumption;
    assumption.interpretation = Interpretation::Assumption {
        statement: "declared premise".to_owned(),
    };
    assert_eq!(assumption.validate(), Ok(()));
}

#[test]
fn answer_conflicts_need_two_records() {
    let mut answer = answer();
    answer.conflicts[0].record_ids = set(&["obs-0001"]);
    assert_eq!(answer.validate(), Err(SchemaError::TooFewConflictRecords));
}
