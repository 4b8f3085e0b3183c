use std::collections::BTreeMap;

use fabrico11y::catalog::{CatalogError, CatalogSegment, ObservationHeadRow, RecordLocation};
use fabrico11y::ordering::{LogicalTime, Timestamp};
use fabrico11y::replay::EvidenceState;
use fabrico11y::schema::{
    Correction, CorrectionOperation, EpistemicClass, EvidenceRecord, Integrity, Interpretation,
    Observation, Origin, Producer, Relations, SchemaError,
};
use fabrico11y::sdk::{
    accept_policy_answer, admission_time_field, admit_record, assign_recorded_at,
    check_archived_count, check_cataloged_segments, check_heads, check_record_locations, clock_reading,
    check_segment_entry, check_segment_file_name, check_staging_size, check_storage_entry,
    check_storage_paths, decode_staging, is_partial_file_name, is_segment_file,
    latest_recorded_at, parse_args, replay_history, seal_options, segment_file_name,
    stamp_admission, staging_is_redundant, staging_next_length, usage, validation_report,
    AdmissionClock, AdmissionPolicy, AdmissionPolicyError, ClockError, SystemClock, Command, RecoveryReport,
    RequireClassification, SdkError, SdkErrorCategory,
};
use fabrico11y::segment::{
    CompressionManifest, DictionaryLocator, FrameManifest, OrderingBounds, RowReading,
    SegmentError, SegmentIntegrity, SegmentManifest,
};
use fabrico11y::text::TextSet;

fn timestamp(value: &str) -> Timestamp {
    Timestamp::parse(value.to_owned()).expect("fixture timestamp")
}

fn observation(id: &str, counter: u64) -> Observation {
    Observation {
        api_version: "fabric.observation/v1".to_owned(),
        observation_id: id.to_owned(),
        epistemic_class: EpistemicClass::ObservedFact,
        interpretation: Interpretation::ObservedFact,
        producer: Producer {
            producer_id: "checkout-api".to_owned(),
            stream_id: "trace".to_owned(),
        },
        observed_at: None,
        observed_by_at: timestamp("2026-07-20T14:59:59Z"),
        recorded_at: timestamp("2026-07-20T15:00:00Z"),
        producer_sequence: None,
        logical_time: Some(LogicalTime {
            clock_id: "checkout-clock".to_owned(),
            counter,
        }),
        relations: Relations {
            parents: TextSet::new(),
            links: TextSet::new(),
            correlations: TextSet::new(),
        },
        payload: serde_json::Value::Null,
        payload_ref: None,
        integrity: Integrity {
            algorithm: "sha256".to_owned(),
            digest: "a".repeat(64),
        },
        classification: "internal".to_owned(),
        origin: Origin {
            source_type: "service".to_owned(),
            source_id: "checkout-api".to_owned(),
            schema: "checkout.v1".to_owned(),
            authority: None,
        },
        attributes: BTreeMap::new(),
    }
}

fn obs(id: &str, counter: u64) -> EvidenceRecord {
    EvidenceRecord::from_observation(observation(id, counter))
}

fn replacement(id: &str, target: &str, replacement: &str, counter: u64) -> EvidenceRecord {
    let mut targets = TextSet::new();
    targets.insert(target.to_owned());
    let mut replacements = TextSet::new();
    replacements.insert(replacement.to_owned());
    EvidenceRecord::Correction(Correction {
        api_version: "fabric.correction/v1".to_owned(),
        correction_id: id.to_owned(),
        producer: Producer {
            producer_id: "review-service".to_owned(),
            stream_id: "corrections".to_owned(),
        },
        observed_by_at: timestamp("2026-07-20T15:01:00Z"),
        recorded_at: timestamp("2026-07-20T15:01:01Z"),
        producer_sequence: None,
        logical_time: Some(LogicalTime {
            clock_id: "checkout-clock".to_owned(),
            counter,
        }),
        operation: CorrectionOperation::Replacement,
        targets,
        replacement_ids: Some(replacements),
        qualification: None,
        reason: "reviewed evidence".to_owned(),
        provenance: TextSet::new(),
        classification: "internal".to_owned(),
    })
}

struct RedactPayload;

impl AdmissionPolicy for RedactPayload {
    fn classify_and_redact(
        &self,
        mut record: EvidenceRecord,
    ) -> Result<EvidenceRecord, AdmissionPolicyError> {
        if let EvidenceRecord::Observation(observation) = &mut record {
            observation.payload = serde_json::Value::String("redacted".to_owned());
            observation.recorded_at = Timestamp::parse("2000-01-01T00:00:00Z".to_owned())
                .expect("policy timestamp");
        }
        Ok(record)
    }
}

struct RejectEverything;

impl AdmissionPolicy for RejectEverything {
    fn classify_and_redact(
        &self,
        _record: EvidenceRecord,
    ) -> Result<EvidenceRecord, AdmissionPolicyError> {
        Err(AdmissionPolicyError::new("rejected by policy".to_owned()))
    }
}

#[test]
fn admission_stamps_the_engine_time_around_the_policy() {
    let assigned = timestamp("2026-07-20T16:00:00Z");
    let admitted = admit_record(obs("obs-0001", 94), &assigned, &RedactPayload).expect("admitted");
    match &admitted {
        EvidenceRecord::Observation(observation) => {
            assert_eq!(observation.recorded_at, assigned);
            assert_eq!(observation.payload, serde_json::Value::String("redacted".to_owned()));
        }
        _ => panic!("an observation stays an observation"),
    }
    assert_eq!(admitted.recorded_at(), &assigned);
}

#[test]
fn policy_runs_after_schema_validation_and_its_refusal_is_typed() {
    let assigned = timestamp("2026-07-20T16:00:00Z");
    let error = admit_record(obs("obs-0001", 94), &assigned, &RejectEverything)
        .expect_err("policy refusal");
    assert_eq!(error.category(), SdkErrorCategory::AdmissionRejected);
    match error {
        SdkError::AdmissionRejected(refusal) => assert_eq!(refusal.message(), "rejected by policy"),
        other => panic!("unexpected error {other:?}"),
    }

    let mut invalid = observation("obs-0001", 94);
    invalid.observation_id = "contains spaces".to_owned();
    let error = admit_record(EvidenceRecord::from_observation(invalid), &assigned, &RejectEverything)
        .expect_err("schema failure comes first");
    match error {
        SdkError::SchemaInvalid(message) => assert_eq!(message, "invalid identifier: observation_id"),
        other => panic!("unexpected error {other:?}"),
    }
}

#[test]
fn mixed_epistemic_class_is_not_coerced() {
    let mut mixed = observation("obs-0001", 94);
    mixed.epistemic_class = EpistemicClass::Assumption;
    let error = stamp_admission(EvidenceRecord::from_observation(mixed), &timestamp("2026-07-20T16:00:00Z"))
        .expect_err("mixed class must fail");
    assert_eq!(error.category(), SdkErrorCategory::SchemaInvalid);
    assert_eq!(
        SdkError::from_schema(&SchemaError::MixedEpistemicClass).category(),
        SdkErrorCategory::SchemaInvalid
    );
}

#[test]
fn require_classification_refuses_unlabelled_records() {
    let mut unlabelled = observation("obs-0001", 94);
    unlabelled.classification = String::new();
    let record = EvidenceRecord::from_observation(unlabelled);
    let refusal = RequireClassification
        .classify_and_redact(record.clone())
        .expect_err("classification is required");
    assert_eq!(refusal.message(), "classification is required");
    let labelled = obs("obs-0001", 94);
    assert_eq!(
        RequireClassification.classify_and_redact(labelled.clone()),
        Ok(labelled)
    );
    let assigned = timestamp("2026-07-20T16:00:00Z");
    match accept_policy_answer(Err(AdmissionPolicyError::new("no".to_owned())), &assigned) {
        Err(SdkError::AdmissionRejected(refusal)) => assert_eq!(refusal.message(), "no"),
        other => panic!("unexpected outcome {other:?}"),
    }
}

#[test]
fn late_arriving_forward_correction_is_rejected_before_staging() {
    let assigned = timestamp("2026-07-20T16:00:00Z");
    let history = vec![obs("obs-0001", 96), obs("obs-0002", 97)];
    let correction = admit_record(
        replacement("corr-0001", "obs-0001", "obs-0002", 95),
        &assigned,
        &RequireClassification,
    )
    .expect("the correction itself is valid");
    let mut candidate = history.clone();
    candidate.push(correction);
    let error = replay_history(candidate).expect_err("semantically forward correction must fail");
    assert_eq!(error.category(), SdkErrorCategory::SemanticInvalid);

    let accepted = admit_record(
        replacement("corr-0001", "obs-0001", "obs-0002", 98),
        &assigned,
        &RequireClassification,
    )
    .expect("valid correction");
    let mut candidate = history;
    candidate.push(accepted);
    let state = replay_history(candidate).expect("correction after its targets replays");
    assert_eq!(state.observations.len(), 2);
    assert_eq!(state.corrections.len(), 1);
}

#[test]
fn admission_time_field_follows_the_envelope() {
    assert_eq!(admission_time_field("fabric.observation/v1").expect("field"), "recorded_at");
    assert_eq!(admission_time_field("fabric.correction/v1").expect("field"), "recorded_at");
    assert_eq!(
        admission_time_field("fabric.frontier/v1").expect("field"),
        "as_of_recorded_at"
    );
    match admission_time_field("fabric.answer/v1") {
        Err(SdkError::AdmissionInvalid(message)) => {
            assert_eq!(message, "unsupported evidence envelope fabric.answer/v1")
        }
        other => panic!("unexpected outcome {other:?}"),
    }
}

#[test]
fn engine_owned_recorded_at_replaces_the_given_one() {
    let mut record = obs("obs-0001", 94);
    assign_recorded_at(&mut record, timestamp("2026-07-20T16:00:00Z"));
    assert_eq!(record.recorded_at(), &timestamp("2026-07-20T16:00:00Z"));
}

#[test]
fn seal_uses_the_latest_admission_time() {
    match seal_options(&[]) {
        Err(error) => assert_eq!(error.category(), SdkErrorCategory::NoPendingRecords),
        Ok(_) => panic!("an empty batch is not sealed"),
    }
    let mut first = observation("obs-0001", 94);
    first.recorded_at = timestamp("2026-07-20T17:00:00+02:00");
    let mut second = observation("obs-0002", 95);
    second.recorded_at = timestamp("2026-07-20T15:00:00Z");
    let mut third = observation("obs-0003", 96);
    third.recorded_at = timestamp("2026-07-20T14:00:00Z");
    let records = vec![
        EvidenceRecord::from_observation(first),
        EvidenceRecord::from_observation(second),
        EvidenceRecord::from_observation(third),
    ];
    assert_eq!(latest_recorded_at(&records), timestamp("2026-07-20T15:00:00Z"));
    let options = seal_options(&records).expect("options");
    assert_eq!(options.created_at, timestamp("2026-07-20T15:00:00Z"));
    assert_eq!(options.compression_level, 3);
    assert!(options.dictionary.is_none());
}

#[test]
fn staging_is_bounded() {
    assert_eq!(staging_next_length(10, 5).expect("fits"), 16);
    match staging_next_length(268_435_450, 10) {
        Err(SdkError::StagingCorrupt(message)) => {
            assert_eq!(message, "staging exceeds 268435456 bytes")
        }
        other => panic!("unexpected outcome {other:?}"),
    }
    match staging_next_length(u64::MAX - 1, 5) {
        Err(SdkError::StagingCorrupt(message)) => assert_eq!(message, "staging length overflow"),
        other => panic!("unexpected outcome {other:?}"),
    }
    assert!(check_staging_size(268_435_456).is_ok());
    match check_staging_size(268_435_457) {
        Err(SdkError::StagingCorrupt(message)) => {
            assert_eq!(message, "staging exceeds 268435456 bytes")
        }
        other => panic!("unexpected outcome {other:?}"),
    }
}

#[test]
fn staging_journal_is_read_row_by_row() {
    assert_eq!(decode_staging(b"", Vec::new()).expect("empty").len(), 0);
    match decode_staging(b"{}", Vec::new()) {
        Err(SdkError::StagingCorrupt(message)) => assert_eq!(message, "staging is truncated before LF"),
        other => panic!("unexpected outcome {other:?}"),
    }
    let row = b"{\"observation_id\":\"obs-0001\"}".to_vec();
    let mut journal = row.clone();
    journal.push(b'\n');
    let records = decode_staging(
        &journal,
        vec![RowReading::Parsed {
            record: obs("obs-0001", 94),
            canonical: row.clone(),
        }],
    )
    .expect("one staged record");
    assert_eq!(records, vec![obs("obs-0001", 94)]);

    let mut spaced = row.clone();
    spaced.push(b' ');
    match decode_staging(
        &journal,
        vec![RowReading::Parsed {
            record: obs("obs-0001", 94),
            canonical: spaced,
        }],
    ) {
        Err(SdkError::StagingCorrupt(message)) => assert_eq!(message, "staging row 0 is not canonical"),
        other => panic!("unexpected outcome {other:?}"),
    }
    match decode_staging(b"\n", vec![RowReading::Invalid("unused".to_owned())]) {
        Err(SdkError::StagingCorrupt(message)) => assert_eq!(message, "staging row 0 is blank"),
        other => panic!("unexpected outcome {other:?}"),
    }
    match decode_staging(b"x\n", vec![RowReading::Invalid("expected value".to_owned())]) {
        Err(SdkError::StagingCorrupt(message)) => {
            assert_eq!(message, "staging row 0: expected value")
        }
        other => panic!("unexpected outcome {other:?}"),
    }
}

#[test]
fn storage_names_are_classified() {
    assert!(is_partial_file_name(".interrupted.partial"));
    assert!(!is_partial_file_name("interrupted.partial"));
    assert!(is_segment_file("seg-1.fseg"));
    assert!(!is_segment_file(".fseg"));
    assert_eq!(segment_file_name("seg-1"), "seg-1.fseg");
    match check_storage_entry(".interrupted.partial") {
        Err(SdkError::RecoveryRequired(message)) => {
            assert_eq!(message, "partial file appeared during operation: .interrupted.partial")
        }
        other => panic!("unexpected outcome {other:?}"),
    }
    match check_storage_entry("notes.txt") {
        Err(SdkError::UnexpectedStorageEntry(name)) => assert_eq!(name, "notes.txt"),
        other => panic!("unexpected outcome {other:?}"),
    }
    assert!(check_storage_entry("seg-1.fseg").is_ok());
    assert!(check_segment_file_name("seg-1.fseg", "seg-1").is_ok());
    match check_segment_file_name("copy.fseg", "seg-1") {
        Err(SdkError::CatalogDisagreement(message)) => {
            assert_eq!(message, "segment filename copy.fseg does not match identity seg-1")
        }
        other => panic!("unexpected outcome {other:?}"),
    }
}

fn manifest() -> SegmentManifest {
    let mut classifications = TextSet::new();
    classifications.insert("internal".to_owned());
    SegmentManifest {
        api_version: "fabric.segment.manifest/v1".to_owned(),
        format_version: 1,
        segment_id: "seg-1".to_owned(),
        created_at: timestamp("2026-07-20T15:00:00Z"),
        schema_set_id: "fabric.evidence/v1".to_owned(),
        row_count: 1,
        frame_count: 1,
        ordering_bounds: OrderingBounds {
            producer_sequences: Vec::new(),
            logical_clocks: Vec::new(),
            observed_at: None,
            observed_by_at: None,
            recorded_at: None,
        },
        classifications,
        compression: CompressionManifest {
            codec: "zstd".to_owned(),
            level: 3,
            dictionary: None,
            frames: vec![FrameManifest {
                frame_index: 0,
                payload_offset: 0,
                compressed_bytes: 10,
                uncompressed_bytes: 20,
                row_start: 0,
                row_count: 1,
            }],
        },
        integrity: SegmentIntegrity {
            payload_sha256: "d".repeat(64),
            content_sha256: "c".repeat(64),
        },
    }
}

#[test]
fn recovery_checks_catalog_entries_against_storage() {
    let entry = CatalogSegment::expected("seg-1.fseg", &manifest(), "{}".to_owned()).expect("row");
    let discovered = vec![("seg-1".to_owned(), "seg-1.fseg".to_owned())];
    assert!(check_cataloged_segments(&[entry.clone()], &discovered).is_ok());
    assert!(staging_is_redundant("seg-1", &discovered));
    assert!(!staging_is_redundant("seg-2", &discovered));
    match check_cataloged_segments(&[entry], &[]) {
        Err(SdkError::CatalogDisagreement(message)) => {
            assert_eq!(message, "catalog segment seg-1 is missing from immutable storage")
        }
        other => panic!("unexpected outcome {other:?}"),
    }
    assert_eq!(RecoveryReport::default().removed_partial_files, 0);
}

#[test]
fn validation_rejects_duplicated_segment_metadata_that_disagrees() {
    let manifest = manifest();
    let mut entry = CatalogSegment::expected("seg-1.fseg", &manifest, "{}".to_owned()).expect("row");
    assert!(check_segment_entry(Some(&entry), "seg-1.fseg", &manifest, "{}".to_owned()).is_ok());
    entry.row_count = 999;
    match check_segment_entry(Some(&entry), "seg-1.fseg", &manifest, "{}".to_owned()) {
        Err(SdkError::CatalogDisagreement(message)) => {
            assert_eq!(message, "catalog metadata disagrees for segment seg-1")
        }
        other => panic!("unexpected outcome {other:?}"),
    }
    match check_segment_entry(None, "seg-1.fseg", &manifest, "{}".to_owned()) {
        Err(SdkError::CatalogDisagreement(message)) => {
            assert_eq!(message, "segment seg-1 is absent from catalog")
        }
        other => panic!("unexpected outcome {other:?}"),
    }
    let mut huge = manifest.clone();
    huge.compression.dictionary = Some(DictionaryLocator {
        family: "structured-evidence".to_owned(),
        version: u64::MAX,
        digest: "e".repeat(64),
    });
    match check_segment_entry(Some(&entry), "seg-1.fseg", &huge, "{}".to_owned()) {
        Err(SdkError::Catalog(CatalogError::Disagreement(message))) => {
            assert_eq!(message, "dictionary version exceeds SQLite integer")
        }
        other => panic!("unexpected outcome {other:?}"),
    }
}

#[test]
fn validation_rejects_record_metadata_that_disagrees_with_evidence() {
    let records = vec![obs("obs-0001", 94)];
    let location = RecordLocation {
        record_id: "obs-0001".to_owned(),
        record_kind: "observation".to_owned(),
        segment_id: "seg-1".to_owned(),
        row_index: 0,
        producer_id: "checkout-api".to_owned(),
        stream_id: "trace".to_owned(),
        recorded_at: "2026-07-20T15:00:00Z".to_owned(),
        classification: "internal".to_owned(),
    };
    assert!(check_record_locations("seg-1", &records, &[Some(location.clone())]).is_ok());
    let mut altered = location;
    altered.classification = "restricted".to_owned();
    match check_record_locations("seg-1", &records, &[Some(altered)]) {
        Err(SdkError::CatalogDisagreement(message)) => {
            assert_eq!(message, "record location disagrees for obs-0001")
        }
        other => panic!("unexpected outcome {other:?}"),
    }
    match check_record_locations("seg-1", &records, &[None]) {
        Err(SdkError::CatalogDisagreement(message)) => {
            assert_eq!(message, "record obs-0001 is absent from catalog")
        }
        other => panic!("unexpected outcome {other:?}"),
    }
}

#[test]
fn validation_compares_paths_counts_and_heads() {
    let storage = vec!["b.fseg".to_owned(), "a.fseg".to_owned()];
    let catalog = vec!["a.fseg".to_owned(), "b.fseg".to_owned()];
    assert!(check_storage_paths(&storage, &catalog).is_ok());
    match check_storage_paths(&storage, &vec!["a.fseg".to_owned()]) {
        Err(SdkError::CatalogDisagreement(message)) => {
            assert_eq!(message, "catalog paths and immutable segment paths differ")
        }
        other => panic!("unexpected outcome {other:?}"),
    }
    assert!(check_archived_count(3, 3).is_ok());
    match check_archived_count(2, 3) {
        Err(SdkError::CatalogDisagreement(message)) => {
            assert_eq!(message, "catalog has 2 record rows for 3 archived records")
        }
        other => panic!("unexpected outcome {other:?}"),
    }
    let head = ObservationHeadRow {
        observation_id: "obs-0001".to_owned(),
        disposition_json: "{\"kind\":\"active\"}".to_owned(),
        qualifications_json: "[]".to_owned(),
        correction_ids_json: "[]".to_owned(),
    };
    assert!(check_heads(&[head.clone()], &[head.clone()]).is_ok());
    let mut changed = head.clone();
    changed.qualifications_json = "[\"q\"]".to_owned();
    match check_heads(&[head], &[changed]) {
        Err(SdkError::CatalogDisagreement(message)) => {
            assert_eq!(message, "maintained observation heads disagree with replay")
        }
        other => panic!("unexpected outcome {other:?}"),
    }
    let state = EvidenceState::replay(vec![obs("obs-0001", 94)]).expect("replays");
    let report = validation_report(1, 1, 0, &state);
    assert_eq!(report.segment_count, 1);
    assert_eq!(report.observation_count, 1);
    assert_eq!(report.correction_count, 0);
    assert_eq!(report.frontier_count, 0);
}

#[test]
fn error_categories_single_out_missing_dictionaries() {
    let locator = DictionaryLocator {
        family: "structured-evidence".to_owned(),
        version: 1,
        digest: "e".repeat(64),
    };
    assert_eq!(
        SdkError::Segment(SegmentError::MissingDictionary(locator)).category(),
        SdkErrorCategory::MissingDictionary
    );
    assert_eq!(
        SdkError::Segment(SegmentError::Truncated).category(),
        SdkErrorCategory::SegmentInvalid
    );
    assert_eq!(
        SdkError::Catalog(CatalogError::Sql("locked".to_owned())).category(),
        SdkErrorCategory::CatalogInvalid
    );
    assert_eq!(
        SdkError::ClockFailed(ClockError::new("no clock".to_owned())).category(),
        SdkErrorCategory::ClockFailed
    );
}

#[test]
fn command_line_arguments_select_one_command() {
    let args = |values: &[&str]| values.iter().map(|value| (*value).to_owned()).collect::<Vec<_>>();
    match parse_args(args(&["/data", "admit", "-"])) {
        Ok((root, Command::Admit { input })) => {
            assert_eq!(root, "/data");
            assert_eq!(input, "-");
        }
        _ => panic!("admit"),
    }
    assert!(matches!(parse_args(args(&["/data", "seal"])), Ok((_, Command::Seal))));
    assert!(matches!(parse_args(args(&["/data", "replay"])), Ok((_, Command::Replay))));
    assert!(matches!(parse_args(args(&["/data", "validate"])), Ok((_, Command::Validate))));
    match parse_args(args(&["/data", "locate", "obs-0001"])) {
        Ok((_, Command::Locate { record_id })) => assert_eq!(record_id, "obs-0001"),
        _ => panic!("locate"),
    }
    for wrong in [&["/data"][..], &["/data", "seal", "extra"][..], &["/data", "admit"][..], &["/data", "drop"][..]] {
        match parse_args(args(wrong)) {
            Err(SdkError::AdmissionInvalid(message)) => assert_eq!(
                message,
                "usage: fabricctl ROOT admit FILE|- | seal | replay | validate | locate RECORD_ID"
            ),
            _ => panic!("usage"),
        }
    }
    assert_eq!(usage().category(), SdkErrorCategory::AdmissionInvalid);
}

#[test]
fn canonical_correction_remains_qualification_after_admission() {
    let assigned = timestamp("2026-07-20T16:00:00Z");
    let observation = admit_record(obs("obs-0001", 94), &assigned, &RequireClassification)
        .expect("admit observation");
    let mut targets = TextSet::new();
    targets.insert("obs-0001".to_owned());
    let qualification = EvidenceRecord::Correction(Correction {
        api_version: "fabric.correction/v1".to_owned(),
        correction_id: "corr-0001".to_owned(),
        producer: Producer {
            producer_id: "review-service".to_owned(),
            stream_id: "corrections".to_owned(),
        },
        observed_by_at: timestamp("2026-07-20T15:01:00Z"),
        recorded_at: timestamp("2026-07-20T15:01:01Z"),
        producer_sequence: None,
        logical_time: Some(LogicalTime {
            clock_id: "checkout-clock".to_owned(),
            counter: 95,
        }),
        operation: CorrectionOperation::Qualification,
        targets,
        replacement_ids: None,
        qualification: Some("only within the test window".to_owned()),
        reason: "reviewed evidence".to_owned(),
        provenance: TextSet::new(),
        classification: "internal".to_owned(),
    });
    let correction = admit_record(qualification, &assigned, &RequireClassification)
        .expect("admit correction");
    let state = replay_history(vec![observation, correction]).expect("replay");
    let head = state.observation("obs-0001").expect("obs-0001");
    assert_eq!(head.disposition, fabrico11y::replay::Disposition::Active);
    assert_eq!(
        head.qualifications.items().clone(),
        vec!["only within the test window".to_owned()]
    );
    assert_eq!(head.correction_ids.items().clone(), vec!["corr-0001".to_owned()]);
}

#[test]
fn categories_have_snake_case_names() {
    use_name(SdkErrorCategory::Io, "io");
    use_name(SdkErrorCategory::MissingDictionary, "missing_dictionary");
    use_name(SdkErrorCategory::UnexpectedStorageEntry, "unexpected_storage_entry");
    use_name(SdkErrorCategory::NoPendingRecords, "no_pending_records");
}

fn use_name(category: SdkErrorCategory, expected: &str) {
    assert_eq!(fabrico11y::sdk::category_name(category), expected);
}

#[test]
fn a_clock_reading_keeps_its_text_or_names_the_failure() {
    let time = clock_reading(Ok("2026-07-20T12:00:00.5Z".to_owned())).expect("valid reading");
    assert_eq!(time.as_str(), "2026-07-20T12:00:00.5Z");

    let invalid = clock_reading(Ok("yesterday".to_owned())).expect_err("not RFC 3339");
    assert_eq!(invalid.message(), "invalid RFC 3339 timestamp: yesterday");

    let failed = clock_reading(Err("clock unavailable".to_owned())).expect_err("clock failed");
    assert_eq!(failed.message(), "clock unavailable");
}

#[test]
fn the_system_clock_gives_an_rfc3339_time() {
    let time = SystemClock.now().expect("the clock reads");
    assert!(Timestamp::parse(time.as_str().to_owned()).is_ok());
}
