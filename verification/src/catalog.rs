//! The catalog's rows for immutable segment metadata and record locations, and the
//! rules that decide whether stored rows agree with the segments they describe.
//! The SQLite store that holds these rows lives with the caller.
use vstd::prelude::*;

use crate::ordering::rfc3339_instant;
use crate::schema::{classification_of, record_id_of, recorded_at_of, EvidenceRecord};
use crate::segment::{bounds_describe, instant_of, ranges_fault, recorded_at_times, SegmentManifest};
use crate::text::{decimal, decimal_text, signed_decimal, signed_decimal_text, text_equal};

verus! {

/// The catalog schema version.
pub const CATALOG_VERSION: i64 = 1;

/// Whether a registration added a segment or found it already present.
#[derive(Clone, Copy, Debug, Eq, PartialEq, Structural)]
pub enum Registration {
    Inserted,
    AlreadyPresent,
}

/// Catalog failures.
#[derive(Clone, Debug, PartialEq)]
pub enum CatalogError {
    Io(String),
    Sql(String),
    Migration(String),
    Disagreement(String),
    DuplicateRecord(String),
    InvalidRelativePath(String),
    Integrity(String),
    Json(String),
}

/// The catalog row of one segment.
#[derive(Clone, Debug, Eq, PartialEq)]
pub struct CatalogSegment {
    pub segment_id: String,
    pub relative_path: String,
    pub manifest_json: String,
    pub format_version: i64,
    pub schema_set_id: String,
    pub row_count: i64,
    pub created_at: String,
    pub recorded_at_min: Option<String>,
    pub recorded_at_max: Option<String>,
    pub payload_sha256: String,
    pub content_sha256: String,
    pub dictionary_family: Option<String>,
    pub dictionary_version: Option<i64>,
    pub dictionary_digest: Option<String>,
}

/// A catalog segment row as plain values.
pub ghost struct SegmentRowView {
    pub segment_id: Seq<char>,
    pub relative_path: Seq<char>,
    pub manifest_json: Seq<char>,
    pub format_version: i64,
    pub schema_set_id: Seq<char>,
    pub row_count: i64,
    pub created_at: Seq<char>,
    pub recorded_at_min: Option<Seq<char>>,
    pub recorded_at_max: Option<Seq<char>>,
    pub payload_sha256: Seq<char>,
    pub content_sha256: Seq<char>,
    pub dictionary_family: Option<Seq<char>>,
    pub dictionary_version: Option<i64>,
    pub dictionary_digest: Option<Seq<char>>,
}

/// The text of an optional string.
pub open spec fn opt_text(s: Option<String>) -> Option<Seq<char>> {
    match s {
        Some(s) => Some(s@),
        None => None,
    }
}

impl View for CatalogSegment {
    type V = SegmentRowView;

    open spec fn view(&self) -> SegmentRowView {
        SegmentRowView {
            segment_id: self.segment_id@,
            relative_path: self.relative_path@,
            manifest_json: self.manifest_json@,
            format_version: self.format_version,
            schema_set_id: self.schema_set_id@,
            row_count: self.row_count,
            created_at: self.created_at@,
            recorded_at_min: opt_text(self.recorded_at_min),
            recorded_at_max: opt_text(self.recorded_at_max),
            payload_sha256: self.payload_sha256@,
            content_sha256: self.content_sha256@,
            dictionary_family: opt_text(self.dictionary_family),
            dictionary_version: self.dictionary_version,
            dictionary_digest: opt_text(self.dictionary_digest),
        }
    }
}

/// The catalog row a segment with this manifest, stored at this path and
/// serialized as this canonical JSON, should have.
pub open spec fn expected_row(relative_path: Seq<char>, m: SegmentManifest, manifest_json: Seq<char>) -> SegmentRowView {
    SegmentRowView {
        segment_id: m.segment_id@,
        relative_path,
        manifest_json,
        format_version: m.format_version as i64,
        schema_set_id: m.schema_set_id@,
        row_count: m.row_count as i64,
        created_at: m.created_at@,
        recorded_at_min: match m.ordering_bounds.recorded_at {
            Some(r) => Some(r.min@),
            None => None,
        },
        recorded_at_max: match m.ordering_bounds.recorded_at {
            Some(r) => Some(r.max@),
            None => None,
        },
        payload_sha256: m.integrity.payload_sha256@,
        content_sha256: m.integrity.content_sha256@,
        dictionary_family: match m.compression.dictionary {
            Some(d) => Some(d.family@),
            None => None,
        },
        dictionary_version: match m.compression.dictionary {
            Some(d) => Some(d.version as i64),
            None => None,
        },
        dictionary_digest: match m.compression.dictionary {
            Some(d) => Some(d.digest@),
            None => None,
        },
    }
}

/// The recorded-time columns of a segment's catalog row span its records: the
/// minimum column holds the recorded time of a record that no other record
/// precedes, the maximum column that of a record that no other record follows,
/// and both are empty exactly when no record carries a recorded time.
pub proof fn lemma_row_recorded_at_spans_records(
    relative_path: Seq<char>,
    m: SegmentManifest,
    manifest_json: Seq<char>,
    rs: Seq<EvidenceRecord>,
)
    requires
        bounds_describe(m.ordering_bounds, rs),
    ensures
        ({
            let row = expected_row(relative_path, m, manifest_json);
            let ts = recorded_at_times(rs);
            &&& row.recorded_at_min is None <==> ts.len() == 0
            &&& row.recorded_at_max is None <==> ts.len() == 0
            &&& row.recorded_at_min matches Some(lo) ==> exists|i: int|
                0 <= i < ts.len() && (#[trigger] ts[i])@ == lo && forall|k: int|
                    0 <= k < ts.len() ==> instant_of(ts[i]) <= instant_of(#[trigger] ts[k])
            &&& row.recorded_at_max matches Some(hi) ==> exists|j: int|
                0 <= j < ts.len() && (#[trigger] ts[j])@ == hi && forall|k: int|
                    0 <= k < ts.len() ==> instant_of(#[trigger] ts[k]) <= instant_of(ts[j])
        }),
{
    let ts = recorded_at_times(rs);
    match m.ordering_bounds.recorded_at {
        Some(r) => {
            let (i, j) = choose|i: int, j: int|
                crate::segment::first_least(ts, i) && crate::segment::last_greatest(ts, j) && r.min@ == (
                #[trigger] ts[i])@ && r.max@ == (#[trigger] ts[j])@;
            assert(ts[i]@ == r.min@ && ts[j]@ == r.max@);
        },
        None => {},
    }
}

/// A well-formed manifest never gives a catalog row whose recorded-time minimum
/// follows its maximum.
pub proof fn lemma_row_recorded_at_in_order(relative_path: Seq<char>, m: SegmentManifest, manifest_json: Seq<char>)
    requires
        ranges_fault(m.ordering_bounds) is None,
    ensures
        ({
            let row = expected_row(relative_path, m, manifest_json);
            &&& row.recorded_at_min is Some <==> row.recorded_at_max is Some
            &&& row.recorded_at_min matches Some(lo) ==> rfc3339_instant(lo)->0 <= rfc3339_instant(
                row.recorded_at_max->0,
            )->0
        }),
{
}

/// The manifest holds a number SQLite cannot store as an integer.
pub open spec fn exceeds_sqlite(m: SegmentManifest) -> bool {
    m.row_count > 9223372036854775807 || (m.compression.dictionary matches Some(d) && d.version
        > 9223372036854775807)
}

fn opt_equal(a: &Option<String>, b: &Option<String>) -> (same: bool)
    ensures
        same == (opt_text(*a) == opt_text(*b)),
{
    match (a, b) {
        (Some(x), Some(y)) => text_equal(x.as_str(), y.as_str()),
        (None, None) => true,
        _ => false,
    }
}

impl CatalogSegment {
    /// The row a segment with this manifest, stored at this path and serialized as
    /// this canonical JSON, should have.
    pub fn expected(relative_path: &str, manifest: &SegmentManifest, manifest_json: String) -> (result: Result<
        CatalogSegment,
        CatalogError,
    >)
        ensures
            match result {
                Ok(row) => !exceeds_sqlite(*manifest) && row@ == expected_row(relative_path@, *manifest, manifest_json@),
                Err(CatalogError::Disagreement(message)) => exceeds_sqlite(*manifest) && (if manifest.row_count
                    > 9223372036854775807 {
                    message@ == "manifest row count exceeds SQLite integer"@
                } else {
                    message@ == "dictionary version exceeds SQLite integer"@
                }),
                Err(_) => false,
            },
    {
        if manifest.row_count > 9223372036854775807u64 {
            return Err(CatalogError::Disagreement("manifest row count exceeds SQLite integer".to_owned()));
        }
        let (dictionary_family, dictionary_version, dictionary_digest) = match &manifest.compression.dictionary {
            Some(d) => {
                if d.version > 9223372036854775807u64 {
                    return Err(CatalogError::Disagreement("dictionary version exceeds SQLite integer".to_owned()));
                }
                (Some(d.family.clone()), Some(d.version as i64), Some(d.digest.clone()))
            },
            None => (None, None, None),
        };
        let (recorded_at_min, recorded_at_max) = match &manifest.ordering_bounds.recorded_at {
            Some(r) => (Some(r.min.as_str().to_owned()), Some(r.max.as_str().to_owned())),
            None => (None, None),
        };
        Ok(
            CatalogSegment {
                segment_id: manifest.segment_id.clone(),
                relative_path: relative_path.to_owned(),
                manifest_json,
                format_version: manifest.format_version as i64,
                schema_set_id: manifest.schema_set_id.clone(),
                row_count: manifest.row_count as i64,
                created_at: manifest.created_at.as_str().to_owned(),
                recorded_at_min,
                recorded_at_max,
                payload_sha256: manifest.integrity.payload_sha256.clone(),
                content_sha256: manifest.integrity.content_sha256.clone(),
                dictionary_family,
                dictionary_version,
                dictionary_digest,
            },
        )
    }

    /// Whether every column of two rows agrees.
    pub fn same_row(&self, other: &CatalogSegment) -> (same: bool)
        ensures
            same == (self@ == other@),
    {
        text_equal(self.segment_id.as_str(), other.segment_id.as_str()) && text_equal(
            self.relative_path.as_str(),
            other.relative_path.as_str(),
        ) && text_equal(self.manifest_json.as_str(), other.manifest_json.as_str()) && self.format_version
            == other.format_version && text_equal(self.schema_set_id.as_str(), other.schema_set_id.as_str())
            && self.row_count == other.row_count && text_equal(self.created_at.as_str(), other.created_at.as_str())
            && opt_equal(&self.recorded_at_min, &other.recorded_at_min) && opt_equal(
            &self.recorded_at_max,
            &other.recorded_at_max,
        ) && text_equal(self.payload_sha256.as_str(), other.payload_sha256.as_str()) && text_equal(
            self.content_sha256.as_str(),
            other.content_sha256.as_str(),
        ) && opt_equal(&self.dictionary_family, &other.dictionary_family) && self.dictionary_version
            == other.dictionary_version && opt_equal(&self.dictionary_digest, &other.dictionary_digest)
    }

    /// Whether this row is exactly the row the segment should have.
    pub fn agrees_with(&self, relative_path: &str, manifest: &SegmentManifest, manifest_json: String) -> (result:
        Result<bool, CatalogError>)
        ensures
            match result {
                Ok(agrees) => !exceeds_sqlite(*manifest) && agrees == (self@ == expected_row(
                    relative_path@,
                    *manifest,
                    manifest_json@,
                )),
                Err(e) => exceeds_sqlite(*manifest) && e is Disagreement,
            },
    {
        let expected = CatalogSegment::expected(relative_path, manifest, manifest_json)?;
        Ok(self.same_row(&expected))
    }
}

/// Whether a stored segment path is one plain file name ending in `.fseg`: under
/// Unix path rules, a relative path of exactly one normal component.
pub open spec fn is_segment_file_name(path: Seq<char>) -> bool {
    &&& !path.contains('/')
    &&& path.len() >= 5
    &&& path.subrange(path.len() - 5, path.len() as int) == ".fseg"@
}

/// Checks that a stored segment path is one plain file name ending in `.fseg`.
pub fn validate_relative_segment_path(path: &str) -> (result: Result<(), CatalogError>)
    ensures
        result is Ok <==> is_segment_file_name(path@),
        result matches Err(e) ==> (e matches CatalogError::InvalidRelativePath(p) && p@ == path@),
{
    let n = path.unicode_len();
    let mut i: usize = 0;
    while i < n
        invariant
            0 <= i <= n,
            n == path@.len(),
            forall|k: int| 0 <= k < i ==> path@[k] != '/',
        decreases n - i,
    {
        if path.get_char(i) == '/' {
            proof {
                assert(path@.contains('/'));
            }
            return Err(CatalogError::InvalidRelativePath(path.to_owned()));
        }
        i = i + 1;
    }
    if n < 5 {
        return Err(CatalogError::InvalidRelativePath(path.to_owned()));
    }
    let tail = path.substring_char(n - 5, n);
    proof {
        reveal_strlit(".fseg");
    }
    if !text_equal(tail, ".fseg") {
        return Err(CatalogError::InvalidRelativePath(path.to_owned()));
    }
    Ok(())
}

/// Where an archived record lives, with the metadata searches use.
#[derive(Clone, Debug, Eq, PartialEq)]
pub struct RecordLocation {
    pub record_id: String,
    pub record_kind: String,
    pub segment_id: String,
    pub row_index: i64,
    pub producer_id: String,
    pub stream_id: String,
    pub recorded_at: String,
    pub classification: String,
}

/// The kind name a record is cataloged under.
pub open spec fn kind_name(record: EvidenceRecord) -> Seq<char> {
    match record {
        EvidenceRecord::Observation(_) => "observation"@,
        EvidenceRecord::Correction(_) => "correction"@,
        EvidenceRecord::Frontier(_) => "frontier"@,
    }
}

/// The producer stream a record belongs to.
pub open spec fn producer_of(record: EvidenceRecord) -> (Seq<char>, Seq<char>) {
    match record {
        EvidenceRecord::Observation(o) => (o.producer.producer_id@, o.producer.stream_id@),
        EvidenceRecord::Correction(c) => (c.producer.producer_id@, c.producer.stream_id@),
        EvidenceRecord::Frontier(f) => (f.producer.producer_id@, f.producer.stream_id@),
    }
}

/// The searchable metadata of a record.
pub struct RecordMetadata<'a> {
    pub record_id: &'a str,
    pub kind: &'static str,
    pub producer_id: &'a str,
    pub stream_id: &'a str,
    pub recorded_at: &'a str,
    pub classification: &'a str,
}

impl<'a> RecordMetadata<'a> {
    /// The searchable metadata of a record.
    pub fn of(record: &'a EvidenceRecord) -> (metadata: RecordMetadata<'a>)
        ensures
            metadata.record_id@ == record_id_of(*record),
            metadata.kind@ == kind_name(*record),
            (metadata.producer_id@, metadata.stream_id@) == producer_of(*record),
            metadata.recorded_at@ == recorded_at_of(*record),
            metadata.classification@ == classification_of(*record),
    {
        match record {
            EvidenceRecord::Observation(o) => {
                proof {
                    reveal_strlit("observation");
                }
                RecordMetadata {
                    record_id: o.observation_id.as_str(),
                    kind: "observation",
                    producer_id: o.producer.producer_id.as_str(),
                    stream_id: o.producer.stream_id.as_str(),
                    recorded_at: o.recorded_at.as_str(),
                    classification: o.classification.as_str(),
                }
            },
            EvidenceRecord::Correction(c) => {
                proof {
                    reveal_strlit("correction");
                }
                RecordMetadata {
                    record_id: c.correction_id.as_str(),
                    kind: "correction",
                    producer_id: c.producer.producer_id.as_str(),
                    stream_id: c.producer.stream_id.as_str(),
                    recorded_at: c.recorded_at.as_str(),
                    classification: c.classification.as_str(),
                }
            },
            EvidenceRecord::Frontier(f) => {
                proof {
                    reveal_strlit("frontier");
                }
                RecordMetadata {
                    record_id: f.frontier_id.as_str(),
                    kind: "frontier",
                    producer_id: f.producer.producer_id.as_str(),
                    stream_id: f.producer.stream_id.as_str(),
                    recorded_at: f.as_of_recorded_at.as_str(),
                    classification: f.classification.as_str(),
                }
            },
        }
    }
}

/// The catalog location of a record stored at this row of this segment.
pub open spec fn location_agrees(l: RecordLocation, segment_id: Seq<char>, row_index: i64, record: EvidenceRecord) -> bool {
    &&& l.record_id@ == record_id_of(record)
    &&& l.record_kind@ == kind_name(record)
    &&& l.segment_id@ == segment_id
    &&& l.row_index == row_index
    &&& (l.producer_id@, l.stream_id@) == producer_of(record)
    &&& l.recorded_at@ == recorded_at_of(record)
    &&& l.classification@ == classification_of(record)
}

impl RecordLocation {
    /// Whether this location is exactly what the record at this row of this segment
    /// should be cataloged as.
    pub fn agrees_with(&self, segment_id: &str, row_index: i64, record: &EvidenceRecord) -> (agrees: bool)
        ensures
            agrees == location_agrees(*self, segment_id@, row_index, *record),
    {
        let expected = RecordMetadata::of(record);
        text_equal(self.record_id.as_str(), expected.record_id) && text_equal(self.record_kind.as_str(), expected.kind)
            && text_equal(self.segment_id.as_str(), segment_id) && self.row_index == row_index && text_equal(
            self.producer_id.as_str(),
            expected.producer_id,
        ) && text_equal(self.stream_id.as_str(), expected.stream_id) && text_equal(
            self.recorded_at.as_str(),
            expected.recorded_at,
        ) && text_equal(self.classification.as_str(), expected.classification)
    }
}

/// Whether registering a segment inserts its row: with no stored row it does;
/// a stored row must be exactly the expected one, and is then kept.
pub fn segment_row_decision(existing: Option<&CatalogSegment>, expected: &CatalogSegment) -> (result: Result<
    bool,
    CatalogError,
>)
    ensures
        match existing {
            None => result == Ok::<bool, CatalogError>(true),
            Some(row) => if row@ == expected@ {
                result == Ok::<bool, CatalogError>(false)
            } else {
                result matches Err(CatalogError::Disagreement(m)) && m@ == "catalog metadata disagrees for segment "@
                    + expected.segment_id@
            },
        },
{
    match existing {
        None => Ok(true),
        Some(row) => {
            if row.same_row(expected) {
                Ok(false)
            } else {
                let mut message = "catalog metadata disagrees for segment ".to_owned();
                message.append(expected.segment_id.as_str());
                Err(CatalogError::Disagreement(message))
            }
        },
    }
}

/// Whether registering a record inserts its location row: with no stored row it
/// does; a stored row for the record's id must place exactly this record at this
/// row of this segment, and is then kept; else the id belongs to other evidence.
pub fn record_row_decision(
    existing: Option<&RecordLocation>,
    segment_id: &str,
    row_index: i64,
    record: &EvidenceRecord,
) -> (result: Result<bool, CatalogError>)
    ensures
        match existing {
            None => result == Ok::<bool, CatalogError>(true),
            Some(l) => if location_agrees(*l, segment_id@, row_index, *record) {
                result == Ok::<bool, CatalogError>(false)
            } else {
                result matches Err(CatalogError::DuplicateRecord(id)) && id@ == record_id_of(*record)
            },
        },
{
    match existing {
        None => Ok(true),
        Some(l) => {
            if l.agrees_with(segment_id, row_index, record) {
                Ok(false)
            } else {
                let metadata = RecordMetadata::of(record);
                Err(CatalogError::DuplicateRecord(metadata.record_id.to_owned()))
            }
        },
    }
}

/// Checks the number of location rows a registration left for a segment against
/// the manifest's row count.
pub fn registered_rows_check(registered: i64, manifest: &SegmentManifest) -> (result: Result<(), CatalogError>)
    ensures
        manifest.row_count > 9223372036854775807 ==> (result matches Err(CatalogError::Disagreement(m)) && m@
            == "manifest row count exceeds SQLite integer"@),
        manifest.row_count <= 9223372036854775807 && registered != manifest.row_count ==> (result matches Err(
            CatalogError::Disagreement(m),
        ) && m@ == "catalog has "@ + signed_decimal_text(registered as int) + " rows for segment "@
            + manifest.segment_id@ + " but manifest declares "@ + decimal_text(manifest.row_count as nat)),
        manifest.row_count <= 9223372036854775807 && registered == manifest.row_count ==> result is Ok,
{
    if manifest.row_count > 9223372036854775807u64 {
        return Err(CatalogError::Disagreement("manifest row count exceeds SQLite integer".to_owned()));
    }
    if registered != manifest.row_count as i64 {
        let mut message = "catalog has ".to_owned();
        message.append(signed_decimal(registered).as_str());
        message.append(" rows for segment ");
        message.append(manifest.segment_id.as_str());
        message.append(" but manifest declares ");
        message.append(decimal(manifest.row_count).as_str());
        return Err(CatalogError::Disagreement(message));
    }
    Ok(())
}

/// The stored form of one maintained observation head.
#[derive(Clone, Debug, Eq, PartialEq)]
pub struct ObservationHeadRow {
    pub observation_id: String,
    pub disposition_json: String,
    pub qualifications_json: String,
    pub correction_ids_json: String,
}

/// Everything the catalog stores, in key order.
#[derive(Clone, Debug, Eq, PartialEq)]
pub struct CatalogSnapshot {
    pub segments: Vec<CatalogSegment>,
    pub records: Vec<RecordLocation>,
    pub heads: Vec<ObservationHeadRow>,
}

} // verus!
