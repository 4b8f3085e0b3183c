use std::collections::BTreeMap;

use fabrico11y::catalog::{
    record_row_decision, registered_rows_check, segment_row_decision, validate_relative_segment_path, CatalogError, CatalogSegment, RecordLocation, RecordMetadata,
};
use fabrico11y::ordering::{LogicalTime, Timestamp};
use fabrico11y::schema::{
    EpistemicClass, EvidenceRecord, Integrity, Interpretation, Observation, Origin, Producer,
    Relations,
};
use fabrico11y::segment::{
    CompressionManifest, DictionaryLocator, FrameManifest, OrderingBounds, SegmentIntegrity,
    SegmentManifest, TimeRange,
};
use fabrico11y::text::TextSet;

fn timestamp(value: &str) -> Timestamp {
    Timestamp::parse(value.to_owned()).expect("fixture timestamp")
}

fn manifest() -> SegmentManifest {
    let mut classifications = TextSet::new();
    classifications.insert("internal".to_owned());
    SegmentManifest {
        api_version: "fabric.segment.manifest/v1".to_owned(),
        format_version: 1,
        segment_id: format!("seg-{}", "c".repeat(64)),
        created_at: timestamp("2026-07-20T15:00:00Z"),
        schema_set_id: "fabric.evidence/v1".to_owned(),
        row_count: 1,
        frame_count: 1,
        ordering_bounds: OrderingBounds {
            producer_sequences: Vec::new(),
            logical_clocks: Vec::new(),
            observed_at: None,
            observed_by_at: None,
            recorded_at: Some(TimeRange {
                min: timestamp("2026-07-20T15:00:00Z"),
                max: timestamp("2026-07-20T15:00:00Z"),
            }),
        },
        classifications,
        compression: CompressionManifest {
            codec: "zstd".to_owned(),
            level: 3,
            dictionary: None,
            frames: vec![FrameManifest {
                frame_index: 0,
                payload_offset: 0,
                compressed_bytes: 40,
                uncompressed_bytes: 80,
                row_start: 0,
                row_count: 1,
            }],
        },
        integrity: SegmentIntegrity {
            payload_sha256: "d".repeat(64),
            content_sha256: "c".repeat(64),
        },
    }
}

fn observation() -> EvidenceRecord {
    EvidenceRecord::from_observation(Observation {
        api_version: "fabric.observation/v1".to_owned(),
        observation_id: "obs-0001".to_owned(),
        epistemic_class: EpistemicClass::ObservedFact,
        interpretation: Interpretation::ObservedFact,
        producer: Producer {
            producer_id: "checkout-api".to_owned(),
            stream_id: "trace".to_owned(),
        },
        observed_at: None,
        observed_by_at: timestamp("2026-07-20T14:59:59Z"),
        recorded_at: timestamp("2026-07-20T15:00:00Z"),
        producer_sequence: Some(1),
        logical_time: Some(LogicalTime {
            clock_id: "checkout-clock".to_owned(),
            counter: 94,
        }),
        relations: Relations {
            parents: TextSet::new(),
            links: TextSet::new(),
            correlations: TextSet::new(),
        },
        payload: serde_json::Value::Null,
        payload_ref: None,
        integrity: Integrity {
            algorithm: "sha256".to_owned(),
            digest: "a".repeat(64),
        },
        classification: "internal".to_owned(),
        origin: Origin {
            source_type: "service".to_owned(),
            source_id: "checkout-api".to_owned(),
            schema: "checkout.v1".to_owned(),
            authority: None,
        },
        attributes: BTreeMap::new(),
    })
}

#[test]
fn segment_paths_are_single_file_names() {
    assert_eq!(validate_relative_segment_path("segment.fseg"), Ok(()));
    assert_eq!(validate_relative_segment_path(".fseg"), Ok(()));
    for path in ["", ".", "..", "segment.json", "nested/segment.fseg", "/segment.fseg", "./segment.fseg", "segment.fseg/"] {
        assert_eq!(
            validate_relative_segment_path(path),
            Err(CatalogError::InvalidRelativePath(path.to_owned())),
            "{path}"
        );
    }
}

#[test]
fn expected_row_copies_the_manifest() {
    let manifest = manifest();
    let row = CatalogSegment::expected("segment.fseg", &manifest, "{}".to_owned()).expect("row");
    assert_eq!(row.segment_id, manifest.segment_id);
    assert_eq!(row.relative_path, "segment.fseg");
    assert_eq!(row.manifest_json, "{}");
    assert_eq!(row.format_version, 1);
    assert_eq!(row.schema_set_id, "fabric.evidence/v1");
    assert_eq!(row.row_count, 1);
    assert_eq!(row.created_at, "2026-07-20T15:00:00Z");
    assert_eq!(row.recorded_at_min.as_deref(), Some("2026-07-20T15:00:00Z"));
    assert_eq!(row.recorded_at_max.as_deref(), Some("2026-07-20T15:00:00Z"));
    assert_eq!(row.payload_sha256, "d".repeat(64));
    assert_eq!(row.content_sha256, "c".repeat(64));
    assert_eq!(row.dictionary_family, None);
    assert_eq!(row.dictionary_version, None);
    assert_eq!(row.dictionary_digest, None);
    assert_eq!(row.agrees_with("segment.fseg", &manifest, "{}".to_owned()), Ok(true));
}

#[test]
fn repeated_registration_checks_every_duplicated_segment_column() {
    let manifest = manifest();
    let stored = CatalogSegment::expected("segment.fseg", &manifest, "{}".to_owned()).expect("row");
    assert!(stored.same_row(&stored.clone()));

    let mut altered = stored.clone();
    altered.row_count = 999;
    assert_eq!(altered.agrees_with("segment.fseg", &manifest, "{}".to_owned()), Ok(false));

    let mut altered = stored.clone();
    altered.recorded_at_max = None;
    assert_eq!(altered.agrees_with("segment.fseg", &manifest, "{}".to_owned()), Ok(false));

    assert_eq!(stored.agrees_with("other.fseg", &manifest, "{}".to_owned()), Ok(false));
    assert_eq!(stored.agrees_with("segment.fseg", &manifest, "[]".to_owned()), Ok(false));
}

#[test]
fn numbers_beyond_sqlite_integers_are_refused() {
    let mut manifest = manifest();
    manifest.row_count = u64::MAX;
    assert_eq!(
        CatalogSegment::expected("segment.fseg", &manifest, "{}".to_owned()),
        Err(CatalogError::Disagreement("manifest row count exceeds SQLite integer".to_owned()))
    );

    let mut manifest = self::manifest();
    manifest.compression.dictionary = Some(DictionaryLocator {
        family: "structured-evidence".to_owned(),
        version: u64::MAX,
        digest: "e".repeat(64),
    });
    assert_eq!(
        CatalogSegment::expected("segment.fseg", &manifest, "{}".to_owned()),
        Err(CatalogError::Disagreement("dictionary version exceeds SQLite integer".to_owned()))
    );

    let mut manifest = self::manifest();
    manifest.compression.dictionary = Some(DictionaryLocator {
        family: "structured-evidence".to_owned(),
        version: 2,
        digest: "e".repeat(64),
    });
    let row = CatalogSegment::expected("segment.fseg", &manifest, "{}".to_owned()).expect("row");
    assert_eq!(row.dictionary_family.as_deref(), Some("structured-evidence"));
    assert_eq!(row.dictionary_version, Some(2));
    assert_eq!(row.dictionary_digest, Some("e".repeat(64)));
}

#[test]
fn record_metadata_and_locations_follow_the_record() {
    let record = observation();
    let metadata = RecordMetadata::of(&record);
    assert_eq!(metadata.record_id, "obs-0001");
    assert_eq!(metadata.kind, "observation");
    assert_eq!(metadata.producer_id, "checkout-api");
    assert_eq!(metadata.stream_id, "trace");
    assert_eq!(metadata.recorded_at, "2026-07-20T15:00:00Z");
    assert_eq!(metadata.classification, "internal");

    let location = RecordLocation {
        record_id: "obs-0001".to_owned(),
        record_kind: "observation".to_owned(),
        segment_id: "seg-1".to_owned(),
        row_index: 0,
        producer_id: "checkout-api".to_owned(),
        stream_id: "trace".to_owned(),
        recorded_at: "2026-07-20T15:00:00Z".to_owned(),
        classification: "internal".to_owned(),
    };
    assert!(location.agrees_with("seg-1", 0, &record));
    assert!(!location.agrees_with("seg-1", 1, &record));
    assert!(!location.agrees_with("seg-2", 0, &record));
    let mut altered = location.clone();
    altered.classification = "public".to_owned();
    assert!(!altered.agrees_with("seg-1", 0, &record));
}

#[test]
fn registration_decisions_keep_rows_that_agree() {
    let manifest = manifest();
    let expected = CatalogSegment::expected("segment.fseg", &manifest, "{}".to_owned()).expect("row");
    assert_eq!(segment_row_decision(None, &expected), Ok(true));
    assert_eq!(segment_row_decision(Some(&expected.clone()), &expected), Ok(false));
    let mut stored = expected.clone();
    stored.row_count = 999;
    assert_eq!(
        segment_row_decision(Some(&stored), &expected),
        Err(CatalogError::Disagreement(format!(
            "catalog metadata disagrees for segment {}",
            manifest.segment_id
        )))
    );

    let record = observation();
    let location = RecordLocation {
        record_id: "obs-0001".to_owned(),
        record_kind: "observation".to_owned(),
        segment_id: "seg-1".to_owned(),
        row_index: 0,
        producer_id: "checkout-api".to_owned(),
        stream_id: "trace".to_owned(),
        recorded_at: "2026-07-20T15:00:00Z".to_owned(),
        classification: "internal".to_owned(),
    };
    assert_eq!(record_row_decision(None, "seg-1", 0, &record), Ok(true));
    assert_eq!(record_row_decision(Some(&location), "seg-1", 0, &record), Ok(false));
    assert_eq!(
        record_row_decision(Some(&location), "seg-2", 0, &record),
        Err(CatalogError::DuplicateRecord("obs-0001".to_owned()))
    );

    assert_eq!(registered_rows_check(1, &manifest), Ok(()));
    assert_eq!(
        registered_rows_check(-3, &manifest),
        Err(CatalogError::Disagreement(format!(
            "catalog has -3 rows for segment {} but manifest declares 1",
            manifest.segment_id
        )))
    );
    let mut huge = manifest.clone();
    huge.row_count = u64::MAX;
    assert_eq!(
        registered_rows_check(1, &huge),
        Err(CatalogError::Disagreement("manifest row count exceeds SQLite integer".to_owned()))
    );
}

#[test]
fn duplicate_record_in_another_segment_fails_without_partial_commit() {
    let record = observation();
    let stored_elsewhere = RecordLocation {
        record_id: "obs-0001".to_owned(),
        record_kind: "observation".to_owned(),
        segment_id: "seg-first".to_owned(),
        row_index: 0,
        producer_id: "checkout-api".to_owned(),
        stream_id: "trace".to_owned(),
        recorded_at: "2026-07-20T15:00:00Z".to_owned(),
        classification: "internal".to_owned(),
    };
    assert_eq!(
        record_row_decision(Some(&stored_elsewhere), "seg-second", 0, &record),
        Err(CatalogError::DuplicateRecord("obs-0001".to_owned()))
    );
}
