use std::collections::BTreeMap;

use fabrico11y::ordering::{LogicalTime, Timestamp};
use fabrico11y::schema::{
    Correction, CorrectionOperation, EpistemicClass, EvidenceRecord, Integrity, Interpretation,
    Observation, Origin, Producer, Relations,
};
use fabrico11y::segment::{
    accept_dictionary, check_segment_file_length, existing_segment_outcome, partial_segment_name, assemble_container, bounds_equal, build_content, classifications,
    decode_rows, decompress_payload, finish_decode, inspect_segment_bytes, open_container,
    ordering_bounds, prepare_segment, resolve_dictionary, seal_segment, segment_id_for_records,
    segment_path, sha256_hex, split_lines_of, DecodedSegment, DictionaryEntry, DictionaryLocator,
    DictionaryMaterial, DictionaryRegistry, DictionaryResolver, DictionaryStatus, EncodeOptions,
    EncodedSegment, ManifestReading, MemoryDictionaryResolver, NoDictionaries, RowReading,
    SegmentError, SegmentErrorCategory, SegmentManifest, FLAG_CONTENT_DIGEST, PRELUDE_LENGTH,
};
use fabrico11y::text::{decimal, lower_hex, TextSet};

fn timestamp(value: &str) -> Timestamp {
    Timestamp::parse(value.to_owned()).expect("fixture timestamp")
}

fn observation() -> Observation {
    Observation {
        api_version: "fabric.observation/v1".to_owned(),
        observation_id: "obs-0001".to_owned(),
        epistemic_class: EpistemicClass::ObservedFact,
        interpretation: Interpretation::ObservedFact,
        producer: Producer {
            producer_id: "checkout-api".to_owned(),
            stream_id: "trace".to_owned(),
        },
        observed_at: Some(timestamp("2026-07-20T14:59:58Z")),
        observed_by_at: timestamp("2026-07-20T14:59:59Z"),
        recorded_at: timestamp("2026-07-20T15:00:00Z"),
        producer_sequence: Some(41),
        logical_time: Some(LogicalTime {
            clock_id: "checkout-clock".to_owned(),
            counter: 94,
        }),
        relations: Relations {
            parents: TextSet::new(),
            links: TextSet::new(),
            correlations: TextSet::new(),
        },
        payload: serde_json::Value::Null,
        payload_ref: None,
        integrity: Integrity {
            algorithm: "sha256".to_owned(),
            digest: "a".repeat(64),
        },
        classification: "internal".to_owned(),
        origin: Origin {
            source_type: "service".to_owned(),
            source_id: "checkout-api".to_owned(),
            schema: "checkout.v1".to_owned(),
            authority: None,
        },
        attributes: BTreeMap::new(),
    }
}

fn correction() -> Correction {
    let mut targets = TextSet::new();
    targets.insert("obs-0001".to_owned());
    Correction {
        api_version: "fabric.correction/v1".to_owned(),
        correction_id: "corr-0001".to_owned(),
        producer: Producer {
            producer_id: "review-service".to_owned(),
            stream_id: "corrections".to_owned(),
        },
        observed_by_at: timestamp("2026-07-20T15:01:00Z"),
        recorded_at: timestamp("2026-07-20T15:01:01Z"),
        producer_sequence: Some(7),
        logical_time: Some(LogicalTime {
            clock_id: "checkout-clock".to_owned(),
            counter: 95,
        }),
        operation: CorrectionOperation::Qualification,
        targets,
        replacement_ids: None,
        qualification: Some("only within the test window".to_owned()),
        reason: "reviewed evidence".to_owned(),
        provenance: TextSet::new(),
        classification: "restricted".to_owned(),
    }
}

fn records() -> Vec<EvidenceRecord> {
    vec![
        EvidenceRecord::from_observation(observation()),
        EvidenceRecord::Correction(correction()),
    ]
}

/// The canonical JSON row of each record of `records()`, as the caller's
/// serializer writes it.
fn rows() -> Vec<Vec<u8>> {
    vec![
        br#"{"api_version":"fabric.observation/v1","observation_id":"obs-0001"}"#.to_vec(),
        br#"{"api_version":"fabric.correction/v1","correction_id":"corr-0001"}"#.to_vec(),
    ]
}

fn options() -> EncodeOptions {
    EncodeOptions::new(timestamp("2026-07-20T15:00:00Z"))
}

/// The manifest text the tests use in place of a JSON serializer: deterministic,
/// and read back by comparing against the manifests the test knows.
fn manifest_text(manifest: &SegmentManifest) -> Vec<u8> {
    format!("{manifest:?}").into_bytes()
}

fn encode(records: &[EvidenceRecord], rows: &[Vec<u8>], options: &EncodeOptions) -> Result<EncodedSegment, SegmentError> {
    let prepared = prepare_segment(records, rows, options)?;
    let manifest_json = manifest_text(&prepared.manifest);
    seal_segment(prepared, manifest_json)
}

fn read_manifest(bytes: &[u8], known: &[SegmentManifest]) -> ManifestReading {
    for manifest in known {
        let text = manifest_text(manifest);
        if text == bytes {
            return ManifestReading::Parsed {
                manifest: manifest.clone(),
                canonical: text,
            };
        }
    }
    ManifestReading::Invalid("unknown manifest".to_owned())
}

fn read_row(piece: &[u8], known: &[EvidenceRecord], rows: &[Vec<u8>]) -> RowReading {
    for (record, row) in known.iter().zip(rows) {
        if row.as_slice() == piece {
            return RowReading::Parsed {
                record: record.clone(),
                canonical: row.clone(),
            };
        }
    }
    RowReading::Invalid("unknown row".to_owned())
}

/// Opens, inspects, decompresses and decodes a container, as a reader would.
fn decode<R: DictionaryResolver>(
    bytes: &[u8],
    known_manifests: &[SegmentManifest],
    resolver: &R,
) -> Result<DecodedSegment, SegmentError> {
    let frame = open_container(bytes)?;
    let reading = read_manifest(&frame.manifest, known_manifests);
    let manifest = inspect_segment_bytes(bytes, reading)?;
    let dictionary = resolve_dictionary(&manifest, resolver)?;
    let content = decompress_payload(&manifest, &frame.payload, dictionary.as_deref())?;
    let known = records();
    let known_rows = rows();
    let readings = if !content.is_empty() && content[content.len() - 1] == b'\n' {
        split_lines_of(&content[..content.len() - 1])
            .iter()
            .map(|piece| read_row(piece, &known, &known_rows))
            .collect()
    } else {
        Vec::new()
    };
    finish_decode(manifest, &content, readings)
}

#[test]
fn segment_round_trip_is_canonical_and_immutable() {
    let encoded = encode(&records(), &rows(), &options()).expect("encode segment");
    let decoded = decode(&encoded.bytes, &[encoded.manifest.clone()], &NoDictionaries)
        .expect("decode segment without dictionary");
    assert_eq!(decoded.records, records());
    assert_eq!(decoded.manifest, encoded.manifest);

    let again = encode(&records(), &rows(), &options()).expect("encode segment again");
    assert_eq!(again.bytes, encoded.bytes);
    assert_eq!(
        segment_path("/data/segments", &encoded.manifest.segment_id),
        format!("/data/segments/{}.fseg", encoded.manifest.segment_id)
    );
}

#[test]
fn checksum_truncation_and_trailing_fail_distinctly() {
    let encoded = encode(&records(), &rows(), &options()).expect("encode segment");
    let known = [encoded.manifest.clone()];
    let manifest_length = u32::from_be_bytes([
        encoded.bytes[12],
        encoded.bytes[13],
        encoded.bytes[14],
        encoded.bytes[15],
    ]) as usize;
    let mut corrupt = encoded.bytes.clone();
    corrupt[PRELUDE_LENGTH + manifest_length] ^= 0x01;
    assert_eq!(
        decode(&corrupt, &known, &NoDictionaries)
            .expect_err("corrupt payload must fail")
            .category(),
        SegmentErrorCategory::PayloadChecksumMismatch
    );

    let truncated = &encoded.bytes[..encoded.bytes.len() - 1];
    assert_eq!(
        decode(truncated, &known, &NoDictionaries)
            .expect_err("truncated segment must fail")
            .category(),
        SegmentErrorCategory::Truncated
    );

    let mut trailing = encoded.bytes;
    trailing.push(0);
    assert_eq!(
        decode(&trailing, &known, &NoDictionaries)
            .expect_err("trailing data must fail")
            .category(),
        SegmentErrorCategory::TrailingData
    );
}

#[test]
fn multiple_physical_frames_fail_even_when_the_container_is_consistent() {
    let records = records();
    let mut content_parts = Vec::new();
    for row in rows() {
        let mut row = row;
        row.push(b'\n');
        content_parts.push(row);
    }
    let first_frame = zstd::bulk::compress(&content_parts[0], 3).expect("first frame");
    let second_frame = zstd::bulk::compress(&content_parts[1], 3).expect("second frame");
    let mut content = content_parts[0].clone();
    content.extend_from_slice(&content_parts[1]);
    let mut payload = first_frame;
    payload.extend_from_slice(&second_frame);

    let mut manifest = encode(&records, &rows(), &options())
        .expect("manifest template")
        .manifest;
    manifest.compression.frames[0].compressed_bytes =
        u64::try_from(payload.len()).expect("payload length");
    manifest.compression.frames[0].uncompressed_bytes =
        u64::try_from(content.len()).expect("content length");
    manifest.integrity.payload_sha256 = sha256_hex(&payload);
    manifest.integrity.content_sha256 = sha256_hex(&content);
    manifest.segment_id = format!("seg-{}", manifest.integrity.content_sha256);

    let container = assemble_container(FLAG_CONTENT_DIGEST, &manifest_text(&manifest), &payload);

    assert_eq!(
        decode(&container, &[manifest], &NoDictionaries)
            .expect_err("multiple physical frames must fail")
            .category(),
        SegmentErrorCategory::DecompressionFailed
    );
}

#[test]
fn manifest_pruning_metadata_must_match_canonical_records() {
    let encoded = encode(&records(), &rows(), &options()).expect("encode segment");
    let manifest_length = usize::try_from(u32::from_be_bytes([
        encoded.bytes[12],
        encoded.bytes[13],
        encoded.bytes[14],
        encoded.bytes[15],
    ]))
    .expect("manifest length");
    let payload_length = usize::try_from(u64::from_be_bytes([
        encoded.bytes[16],
        encoded.bytes[17],
        encoded.bytes[18],
        encoded.bytes[19],
        encoded.bytes[20],
        encoded.bytes[21],
        encoded.bytes[22],
        encoded.bytes[23],
    ]))
    .expect("payload length");
    let payload_start = PRELUDE_LENGTH + manifest_length;
    let payload = &encoded.bytes[payload_start..payload_start + payload_length];

    let mut false_classification = encoded.manifest.clone();
    let mut probe = TextSet::new();
    probe.insert("fabric-review-probe".to_owned());
    false_classification.classifications = probe;
    let mut false_ordering_bound = encoded.manifest.clone();
    false_ordering_bound.ordering_bounds.producer_sequences[0].max += 1;

    for (case, manifest) in [
        ("classifications", false_classification),
        ("ordering bounds", false_ordering_bound),
    ] {
        let container = assemble_container(FLAG_CONTENT_DIGEST, &manifest_text(&manifest), payload);
        assert_eq!(
            decode(&container, &[manifest], &NoDictionaries)
                .expect_err(case)
                .category(),
            SegmentErrorCategory::ManifestInvalid,
            "{case}"
        );
    }
}

#[test]
fn dictionary_is_digest_addressed_and_required() {
    let dictionary =
        b"fabric observation correction producer stream recorded_at payload".repeat(32);
    let locator = DictionaryLocator {
        family: "structured-evidence".to_owned(),
        version: 1,
        digest: sha256_hex(&dictionary),
    };
    let mut dictionary_options = options();
    dictionary_options.dictionary = Some(
        DictionaryMaterial::new(locator.clone(), dictionary.clone())
            .expect("valid dictionary material"),
    );
    let encoded =
        encode(&records(), &rows(), &dictionary_options).expect("encode dictionary segment");
    let known = [encoded.manifest.clone()];
    assert_eq!(
        decode(&encoded.bytes, &known, &NoDictionaries)
            .expect_err("missing dictionary must fail")
            .category(),
        SegmentErrorCategory::MissingDictionary
    );
    let mut resolver = MemoryDictionaryResolver::default();
    resolver
        .insert(locator, dictionary)
        .expect("insert dictionary");
    assert_eq!(
        decode(&encoded.bytes, &known, &resolver)
            .expect("dictionary decode")
            .records,
        records()
    );
}

#[test]
fn dictionary_material_refuses_bytes_of_another_digest() {
    let locator = DictionaryLocator {
        family: "structured-evidence".to_owned(),
        version: 1,
        digest: sha256_hex(b"one dictionary"),
    };
    let error = DictionaryMaterial::new(locator.clone(), b"another dictionary".to_vec())
        .expect_err("digest mismatch");
    assert_eq!(error, SegmentError::DictionaryDigestMismatch(locator.clone()));
    assert_eq!(error.category(), SegmentErrorCategory::DictionaryDigestMismatch);

    let mut resolver = MemoryDictionaryResolver::new();
    assert_eq!(
        resolver.insert(locator.clone(), b"another dictionary".to_vec()),
        Err(SegmentError::DictionaryDigestMismatch(locator.clone()))
    );
    assert_eq!(
        resolver.resolve(&locator),
        Err(SegmentError::MissingDictionary(locator.clone()))
    );
    assert_eq!(
        accept_dictionary(&locator, Ok(b"another dictionary".to_vec())),
        Err(SegmentError::DictionaryDigestMismatch(locator.clone()))
    );
    assert_eq!(
        accept_dictionary(&locator, Ok(b"one dictionary".to_vec())),
        Ok(b"one dictionary".to_vec())
    );
    assert_eq!(
        accept_dictionary(&locator, Err(SegmentError::Io("offline".to_owned()))),
        Err(SegmentError::Io("offline".to_owned()))
    );
}

#[test]
fn sha256_hex_matches_known_digests() {
    assert_eq!(
        sha256_hex(b""),
        "e3b0c44298fc1c149afbf4c8996fb92427ae41e4649b934ca495991b7852b855"
    );
    assert_eq!(
        sha256_hex(b"abc"),
        "ba7816bf8f01cfea414140de5dae2223b00361a396177a9cb410ff61f20015ad"
    );
    assert_eq!(lower_hex(&[0x00, 0x0f, 0xa0, 0xff]), "000fa0ff");
    assert_eq!(decimal(0), "0");
    assert_eq!(decimal(18446744073709551615), "18446744073709551615");
}

#[test]
fn segment_path_adds_one_separator() {
    assert_eq!(segment_path("", "seg-1"), "seg-1.fseg");
    assert_eq!(segment_path("root/", "seg-1"), "root/seg-1.fseg");
    assert_eq!(segment_path("root", "seg-1"), "root/seg-1.fseg");
}

#[test]
fn empty_batch_is_refused() {
    assert_eq!(
        prepare_segment(&[], &[], &options()).expect_err("empty batch").category(),
        SegmentErrorCategory::RowLimitExceeded
    );
    assert_eq!(
        segment_id_for_records(&[], &[]),
        Err(SegmentError::RowLimitExceeded(0))
    );
}

#[test]
fn content_is_rows_each_followed_by_a_line_feed() {
    let content = build_content(&records(), &rows()).expect("content");
    let mut expected = rows()[0].clone();
    expected.push(b'\n');
    expected.extend_from_slice(&rows()[1]);
    expected.push(b'\n');
    assert_eq!(content, expected);
    let id = segment_id_for_records(&records(), &rows()).expect("segment id");
    assert_eq!(id, format!("seg-{}", sha256_hex(&expected)));
}

#[test]
fn invalid_record_is_refused_before_compression() {
    let mut broken = observation();
    broken.observation_id = "contains spaces".to_owned();
    let records = vec![EvidenceRecord::from_observation(broken)];
    let error = prepare_segment(&records, &rows()[..1], &options()).expect_err("invalid record");
    assert_eq!(error.category(), SegmentErrorCategory::SchemaInvalid);
}

#[test]
fn manifest_describes_its_records() {
    let encoded = encode(&records(), &rows(), &options()).expect("encode segment");
    let manifest = &encoded.manifest;
    assert_eq!(manifest.row_count, 2);
    assert_eq!(manifest.frame_count, 1);
    assert_eq!(manifest.compression.codec, "zstd");
    assert_eq!(manifest.compression.level, 3);
    assert!(manifest.compression.dictionary.is_none());
    assert!(manifest.segment_id.starts_with("seg-"));
    assert_eq!(manifest.segment_id[4..], manifest.integrity.content_sha256);
    assert_eq!(
        manifest.classifications.items().clone(),
        vec!["internal".to_owned(), "restricted".to_owned()]
    );
    let labels = classifications(&records());
    assert!(labels.same_members(&manifest.classifications));
    let bounds = ordering_bounds(&records());
    assert!(bounds_equal(&bounds, &manifest.ordering_bounds));
    assert_eq!(bounds.producer_sequences.len(), 2);
    assert_eq!(bounds.producer_sequences[0].producer_id, "checkout-api");
    assert_eq!(bounds.producer_sequences[0].min, 41);
    assert_eq!(bounds.producer_sequences[0].max, 41);
    assert_eq!(bounds.logical_clocks.len(), 1);
    assert_eq!(bounds.logical_clocks[0].min, 94);
    assert_eq!(bounds.logical_clocks[0].max, 95);
    let observed_at = bounds.observed_at.expect("observed_at range");
    assert_eq!(observed_at.min, timestamp("2026-07-20T14:59:58Z"));
    let recorded_at = bounds.recorded_at.expect("recorded_at range");
    assert_eq!(recorded_at.min, timestamp("2026-07-20T15:00:00Z"));
    assert_eq!(recorded_at.max, timestamp("2026-07-20T15:01:01Z"));
}

#[test]
fn container_framing_failures_are_typed() {
    let encoded = encode(&records(), &rows(), &options()).expect("encode segment");
    let mut bad_magic = encoded.bytes.clone();
    bad_magic[0] ^= 0xff;
    assert_eq!(open_container(&bad_magic).expect_err("magic").category(), SegmentErrorCategory::InvalidMagic);

    let mut bad_version = encoded.bytes.clone();
    bad_version[9] = 9;
    assert_eq!(
        open_container(&bad_version).expect_err("version").category(),
        SegmentErrorCategory::UnsupportedVersion
    );

    let mut bad_flags = encoded.bytes.clone();
    bad_flags[11] = 0x04;
    assert_eq!(
        open_container(&bad_flags).expect_err("flags").category(),
        SegmentErrorCategory::UnsupportedFlags
    );

    let mut bad_manifest = encoded.bytes.clone();
    bad_manifest[PRELUDE_LENGTH] ^= 0x01;
    assert_eq!(
        open_container(&bad_manifest).expect_err("manifest digest").category(),
        SegmentErrorCategory::ManifestChecksumMismatch
    );

    assert_eq!(
        open_container(&encoded.bytes[..10]).expect_err("short").category(),
        SegmentErrorCategory::Truncated
    );
}

#[test]
fn unreadable_or_noncanonical_manifest_is_invalid() {
    let encoded = encode(&records(), &rows(), &options()).expect("encode segment");
    assert_eq!(
        inspect_segment_bytes(&encoded.bytes, ManifestReading::Invalid("not JSON".to_owned())),
        Err(SegmentError::ManifestInvalid("not JSON".to_owned()))
    );
    let mut noncanonical = manifest_text(&encoded.manifest);
    noncanonical.push(b' ');
    assert_eq!(
        inspect_segment_bytes(
            &encoded.bytes,
            ManifestReading::Parsed {
                manifest: encoded.manifest.clone(),
                canonical: noncanonical,
            },
        ),
        Err(SegmentError::ManifestInvalid("manifest JSON is not canonical".to_owned()))
    );
}

#[test]
fn rows_are_checked_in_order() {
    let content = b"first\n\nthird\n".to_vec();
    let pieces = split_lines_of(&content[..content.len() - 1]);
    assert_eq!(pieces, vec![b"first".to_vec(), Vec::new(), b"third".to_vec()]);
    let readings = vec![
        RowReading::Invalid("first is unreadable".to_owned()),
        RowReading::Invalid("second".to_owned()),
        RowReading::Invalid("third".to_owned()),
    ];
    assert_eq!(
        decode_rows(&content, 3, readings).expect_err("first row fails"),
        SegmentError::RowInvalid {
            row: 0,
            message: "first is unreadable".to_owned()
        }
    );
    assert_eq!(
        decode_rows(b"no line feed", 4, Vec::new()).expect_err("missing line feed"),
        SegmentError::RowInvalid {
            row: 3,
            message: "canonical JSONL must end with LF".to_owned()
        }
    );

    let mut content = rows()[0].clone();
    content.push(b'\n');
    let reading = RowReading::Parsed {
        record: records()[0].clone(),
        canonical: rows()[0].clone(),
    };
    assert_eq!(
        decode_rows(&content, 2, vec![reading]).expect_err("row count"),
        SegmentError::RowInvalid {
            row: 1,
            message: "manifest declares 2 rows, decoded 1".to_owned()
        }
    );
    let blank = decode_rows(b"\n", 1, vec![RowReading::Invalid("unused".to_owned())]);
    assert_eq!(
        blank,
        Err(SegmentError::RowInvalid {
            row: 0,
            message: "blank row".to_owned()
        })
    );
}

fn entry(family: &str, version: u64, status: DictionaryStatus) -> DictionaryEntry {
    DictionaryEntry {
        family: family.to_owned(),
        version,
        digest: sha256_hex(format!("{family}-{version}").as_bytes()),
        byte_length: 2048,
        training_corpus_digest: "b".repeat(64),
        status,
        activated_at: timestamp("2026-07-01T00:00:00Z"),
        deprecated_at: None,
        retained_until: None,
    }
}

fn registry(entries: Vec<DictionaryEntry>, rollback_versions: Vec<DictionaryLocator>) -> DictionaryRegistry {
    DictionaryRegistry {
        api_version: "fabric.dictionary-registry/v1".to_owned(),
        registry_id: "structured-evidence-registry".to_owned(),
        generated_at: timestamp("2026-07-20T00:00:00Z"),
        entries,
        rollback_versions,
    }
}

#[test]
fn registry_has_one_valid_active_version() {
    let mut deprecated = entry("structured-evidence", 1, DictionaryStatus::Deprecated);
    deprecated.deprecated_at = Some(timestamp("2026-07-10T00:00:00Z"));
    let active = entry("structured-evidence", 2, DictionaryStatus::Active);
    let rollback = deprecated.locator();
    registry(vec![deprecated.clone(), active.clone()], vec![rollback])
        .validate()
        .expect("valid registry");

    let second_active = entry("structured-evidence", 3, DictionaryStatus::Active);
    assert_eq!(
        registry(vec![active.clone(), second_active], Vec::new()).validate(),
        Err(SegmentError::ManifestInvalid(
            "a dictionary family has multiple active versions".to_owned()
        ))
    );

    assert_eq!(
        registry(vec![active.clone(), active.clone()], Vec::new()).validate(),
        Err(SegmentError::ManifestInvalid("invalid or duplicate dictionary entry".to_owned()))
    );

    let mut active_deprecated = active.clone();
    active_deprecated.deprecated_at = Some(timestamp("2026-07-10T00:00:00Z"));
    assert_eq!(
        registry(vec![active_deprecated], Vec::new()).validate(),
        Err(SegmentError::ManifestInvalid(
            "active dictionary cannot have deprecated_at".to_owned()
        ))
    );

    let unknown = entry("structured-evidence", 9, DictionaryStatus::Retained).locator();
    assert_eq!(
        registry(vec![active.clone()], vec![unknown]).validate(),
        Err(SegmentError::ManifestInvalid("rollback locator is absent from entries".to_owned()))
    );

    let mut anonymous = registry(vec![active], Vec::new());
    anonymous.registry_id = String::new();
    assert_eq!(
        anonymous.validate(),
        Err(SegmentError::ManifestInvalid("invalid dictionary registry identity".to_owned()))
    );
}

#[test]
fn sealing_refuses_an_oversized_manifest() {
    let prepared = prepare_segment(&records(), &rows(), &options()).expect("prepare");
    let oversized = vec![b' '; 65537];
    assert_eq!(
        seal_segment(prepared, oversized).expect_err("manifest too large"),
        SegmentError::HeaderTooLarge(65537)
    );
}

#[test]
fn immutable_writes_are_idempotent_and_never_overwrite() {
    assert_eq!(
        existing_segment_outcome("a.fseg".to_owned(), b"same", b"same"),
        Ok("a.fseg".to_owned())
    );
    assert_eq!(
        existing_segment_outcome("a.fseg".to_owned(), b"old", b"new"),
        Err(SegmentError::ImmutableConflict("a.fseg".to_owned()))
    );
    assert_eq!(partial_segment_name("seg-1", 42), ".seg-1.42.partial");
    assert_eq!(check_segment_file_length(24 + 65536 + 72 + 268435456), Ok(()));
    assert_eq!(
        check_segment_file_length(24 + 65536 + 72 + 268435457),
        Err(SegmentError::PayloadTooLarge(24 + 65536 + 72 + 268435457))
    );
}

#[test]
fn decompression_checks_length_and_digest() {
    let encoded = encode(&records(), &rows(), &options()).expect("encode segment");
    let frame = open_container(&encoded.bytes).expect("frame");
    let content = decompress_payload(&encoded.manifest, &frame.payload, None).expect("content");
    assert_eq!(content, build_content(&records(), &rows()).expect("content"));

    let mut wrong_length = encoded.manifest.clone();
    wrong_length.compression.frames[0].uncompressed_bytes += 1;
    assert_eq!(
        decompress_payload(&wrong_length, &frame.payload, None),
        Err(SegmentError::ContentChecksumMismatch)
    );
    let mut wrong_digest = encoded.manifest.clone();
    wrong_digest.integrity.content_sha256 = "0".repeat(64);
    assert_eq!(
        decompress_payload(&wrong_digest, &frame.payload, None),
        Err(SegmentError::ContentChecksumMismatch)
    );
    assert_eq!(
        decompress_payload(&encoded.manifest, b"not a frame", None)
            .expect_err("garbage")
            .category(),
        SegmentErrorCategory::DecompressionFailed
    );
}

/// The four sealed byte cases (valid, corrupt payload, truncated trailer, missing
/// dictionary), sealed in place from an encoded batch the way the fixture
/// generator seals them.
#[test]
fn sealed_byte_fixtures_map_to_the_declared_categories() {
    let valid = encode(&records(), &rows(), &options()).expect("valid bytes");
    let known = [valid.manifest.clone()];
    assert_eq!(
        decode(&valid.bytes, &known, &NoDictionaries)
            .expect("valid byte fixture")
            .records,
        records()
    );

    let mut corrupt = valid.bytes.clone();
    let manifest_length = u32::from_be_bytes([corrupt[12], corrupt[13], corrupt[14], corrupt[15]]) as usize;
    corrupt[PRELUDE_LENGTH + manifest_length + 1] ^= 0x80;
    assert_eq!(
        decode(&corrupt, &known, &NoDictionaries)
            .expect_err("corrupt byte fixture")
            .category(),
        SegmentErrorCategory::PayloadChecksumMismatch
    );

    let truncated = &valid.bytes[..valid.bytes.len() - 10];
    assert_eq!(
        decode(truncated, &known, &NoDictionaries)
            .expect_err("truncated byte fixture")
            .category(),
        SegmentErrorCategory::Truncated
    );

    let dictionary = b"structured evidence dictionary".repeat(8);
    let locator = DictionaryLocator {
        family: "structured-evidence".to_owned(),
        version: 1,
        digest: sha256_hex(&dictionary),
    };
    let mut dictionary_options = options();
    dictionary_options.dictionary =
        Some(DictionaryMaterial::new(locator, dictionary).expect("valid dictionary material"));
    let missing = encode(&records(), &rows(), &dictionary_options).expect("dictionary segment");
    assert_eq!(
        decode(&missing.bytes, &[missing.manifest.clone()], &NoDictionaries)
            .expect_err("missing-dictionary byte fixture")
            .category(),
        SegmentErrorCategory::MissingDictionary
    );
}

#[test]
fn registry_fixture_has_one_valid_active_version() {
    let mut retained = entry("structured-evidence", 1, DictionaryStatus::Retained);
    retained.deprecated_at = Some(timestamp("2026-07-05T00:00:00Z"));
    retained.retained_until = None;
    let active = entry("structured-evidence", 2, DictionaryStatus::Active);
    let other_family = entry("trace-evidence", 1, DictionaryStatus::Active);
    let rollback = retained.locator();
    registry(vec![retained, active, other_family], vec![rollback])
        .validate()
        .expect("valid registry");
}

#[test]
fn registration_rejects_manifest_metadata_from_different_records() {
    let encoded = encode(&records(), &rows(), &options()).expect("encode segment");
    let mut manifest = encoded.manifest.clone();
    let mut probe = TextSet::new();
    probe.insert("fabric-review-probe".to_owned());
    manifest.classifications = probe;
    assert_eq!(
        manifest.validate_records(&records(), &rows()),
        Err(SegmentError::ManifestInvalid(
            "classifications disagree with canonical records".to_owned()
        ))
    );
    assert_eq!(encoded.manifest.validate_records(&records(), &rows()), Ok(()));
    assert_eq!(
        encoded.manifest.validate_records(&records()[..1], &rows()[..1]),
        Err(SegmentError::ManifestInvalid(
            "manifest declares 2 rows but decoded 1".to_owned()
        ))
    );
}

#[test]
fn declared_length_is_checked_before_version_flags_and_limits() {
    let mut prelude = b"FABSEG01".to_vec();
    prelude.extend_from_slice(&[0, 1]);
    prelude.extend_from_slice(&[0, 2]);
    prelude.extend_from_slice(&65537u32.to_be_bytes());
    prelude.extend_from_slice(&0u64.to_be_bytes());
    assert_eq!(prelude.len(), PRELUDE_LENGTH);
    assert_eq!(
        open_container(&prelude).expect_err("short for its declared length").category(),
        SegmentErrorCategory::Truncated
    );

    let mut bad_version = prelude.clone();
    bad_version[9] = 9;
    bad_version[11] = 0x04;
    assert_eq!(
        open_container(&bad_version).expect_err("short for its declared length").category(),
        SegmentErrorCategory::Truncated
    );
}
