//! The decisions of the embedded engine: admission policy and clock hooks, the
//! admission time each envelope receives, the staging journal's rules, storage
//! names, error categories, and the command line. The engine's files, catalog and
//! process live with the caller.
use vstd::prelude::*;

use crate::catalog::{expected_row, exceeds_sqlite, location_agrees, CatalogError, CatalogSegment, ObservationHeadRow, RecordLocation};
use crate::ordering::{rfc3339_instant, Timestamp, TimestampError};
use crate::replay::{core_message_of, refusal_describes, replay_succeeds, replayed_state, CoreError, EvidenceState};
use crate::schema::{classification_of, record_fault, schema_message_of, EvidenceRecord, SchemaError};
use crate::segment::{
    EncodeOptions, SegmentManifest, bytes_equal, category_of, content_rows, first_least, last_greatest, row_bytes, split_lines_of,
    RowReading, SegmentError, SegmentErrorCategory,
};
use crate::text::{contains_text, decimal, decimal_text, text_equal, texts};

verus! {

pub const SEGMENTS_DIRECTORY: &'static str = "segments";

pub const DICTIONARIES_DIRECTORY: &'static str = "dictionaries";

pub const CATALOG_FILE: &'static str = "catalog.sqlite3";

pub const STAGING_FILE: &'static str = "staging.jsonl";

pub const MAX_STAGING_BYTES: u64 = 268435456;

/// Why an admission policy rejected a record.
#[derive(Clone, Debug, Eq, PartialEq)]
pub struct AdmissionPolicyError {
    message: String,
}

impl View for AdmissionPolicyError {
    type V = Seq<char>;

    closed spec fn view(&self) -> Seq<char> {
        self.message@
    }
}

impl AdmissionPolicyError {
    pub fn new(message: String) -> (error: AdmissionPolicyError)
        ensures
            error@ == message@,
    {
        AdmissionPolicyError { message }
    }

    pub fn message(&self) -> (message: &str)
        ensures
            message@ == self@,
    {
        self.message.as_str()
    }
}

/// Why the admission clock failed.
#[derive(Clone, Debug, Eq, PartialEq)]
pub struct ClockError(String);

impl View for ClockError {
    type V = Seq<char>;

    closed spec fn view(&self) -> Seq<char> {
        self.0@
    }
}

impl ClockError {
    pub fn new(message: String) -> (error: ClockError)
        ensures
            error@ == message@,
    {
        ClockError(message)
    }

    pub fn message(&self) -> (message: &str)
        ensures
            message@ == self@,
    {
        self.0.as_str()
    }
}

/// The pre-persistence classification and redaction hook. Implementations decide
/// what they return; admission validates it again.
pub trait AdmissionPolicy {
    fn classify_and_redact(&self, record: EvidenceRecord) -> Result<EvidenceRecord, AdmissionPolicyError>;
}

/// The default policy: a record must already carry a classification, and is kept
/// as it is.
#[derive(Clone, Copy, Debug, Default)]
pub struct RequireClassification;

impl AdmissionPolicy for RequireClassification {
    fn classify_and_redact(&self, record: EvidenceRecord) -> (result: Result<EvidenceRecord, AdmissionPolicyError>)
        ensures
            classification_of(record).len() == 0 ==> (result matches Err(e) && e@ == "classification is required"@),
            classification_of(record).len() > 0 ==> result == Ok::<EvidenceRecord, AdmissionPolicyError>(record),
    {
        if record.classification().unicode_len() == 0 {
            Err(AdmissionPolicyError::new("classification is required".to_owned()))
        } else {
            Ok(record)
        }
    }
}

/// The source of admission times.
pub trait AdmissionClock {
    fn now(&self) -> Result<Timestamp, ClockError>;
}

/// The clock of the machine, in UTC.
#[derive(Clone, Copy, Debug, Default)]
pub struct SystemClock;

/// Formats `time::OffsetDateTime::now_utc()` as RFC 3339, or gives the formatting
/// error's text. The result depends on the moment of the call, so nothing is stated
/// of it.
#[verifier::external_body]
fn utc_now_rfc3339() -> (now: Result<String, String>) {
    match time::OffsetDateTime::now_utc().format(&time::format_description::well_known::Rfc3339) {
        Ok(text) => Ok(text),
        Err(error) => Err(error.to_string()),
    }
}

/// The admission time that a reading of the clock gives: the clock's RFC 3339
/// text kept exactly; a text that is not RFC 3339 refused as
/// `invalid RFC 3339 timestamp: <text>`; a clock failure refused with its own
/// message.
pub fn clock_reading(reading: Result<String, String>) -> (result: Result<Timestamp, ClockError>)
    ensures
        match reading {
            Err(message) => result matches Err(e) && e@ == message@,
            Ok(text) => if rfc3339_instant(text@) is Some {
                result matches Ok(t) && t@ == text@
            } else {
                result matches Err(e) && e@ == "invalid RFC 3339 timestamp: "@ + text@
            },
        },
{
    let text = match reading {
        Ok(text) => text,
        Err(message) => {
            return Err(ClockError::new(message));
        },
    };
    match Timestamp::parse(text) {
        Ok(t) => Ok(t),
        Err(TimestampError::InvalidRfc3339(value)) => {
            let mut message = "invalid RFC 3339 timestamp: ".to_owned();
            message.append(value.as_str());
            Err(ClockError::new(message))
        },
    }
}

impl AdmissionClock for SystemClock {
    /// Reads the machine's clock and keeps its text as the admission time.
    fn now(&self) -> (result: Result<Timestamp, ClockError>)
        ensures
            result matches Ok(t) ==> rfc3339_instant(t@) is Some,
    {
        clock_reading(utc_now_rfc3339())
    }
}

/// What admitting a record gives back.
#[derive(Clone, Debug, Eq, PartialEq)]
pub struct AdmissionReceipt {
    pub record_id: String,
    pub recorded_at: Timestamp,
    pub pending_count: usize,
}

/// What sealing a batch gives back.
#[derive(Clone, Debug, Eq, PartialEq)]
pub struct SealReceipt {
    pub segment_id: String,
    pub row_count: u64,
    pub content_sha256: String,
}

/// What opening an engine recovered.
#[derive(Clone, Debug, Eq, PartialEq)]
pub struct RecoveryReport {
    pub removed_partial_files: usize,
    pub registered_orphan_segments: usize,
    pub cleared_redundant_staging: bool,
}

impl Default for RecoveryReport {
    fn default() -> (report: RecoveryReport)
        ensures
            report.removed_partial_files == 0,
            report.registered_orphan_segments == 0,
            !report.cleared_redundant_staging,
    {
        RecoveryReport { removed_partial_files: 0, registered_orphan_segments: 0, cleared_redundant_staging: false }
    }
}

/// What a full validation counted.
#[derive(Clone, Debug, Eq, PartialEq)]
pub struct ValidationReport {
    pub segment_count: usize,
    pub archived_record_count: usize,
    pub pending_record_count: usize,
    pub observation_count: usize,
    pub correction_count: usize,
    pub frontier_count: usize,
}

/// The category of an engine failure.
#[derive(Clone, Copy, Debug, Eq, PartialEq, Structural)]
pub enum SdkErrorCategory {
    Io,
    JsonInvalid,
    SchemaInvalid,
    SemanticInvalid,
    AdmissionRejected,
    AdmissionInvalid,
    ClockFailed,
    SegmentInvalid,
    MissingDictionary,
    CatalogInvalid,
    CatalogDisagreement,
    StagingCorrupt,
    NoPendingRecords,
    UnexpectedStorageEntry,
    RecoveryRequired,
}

/// Engine failures.
#[derive(Debug)]
pub enum SdkError {
    Io(String),
    JsonInvalid(String),
    SchemaInvalid(String),
    SemanticInvalid(String),
    AdmissionRejected(AdmissionPolicyError),
    AdmissionInvalid(String),
    ClockFailed(ClockError),
    Segment(SegmentError),
    Catalog(CatalogError),
    CatalogDisagreement(String),
    StagingCorrupt(String),
    NoPendingRecords,
    UnexpectedStorageEntry(String),
    RecoveryRequired(String),
}

/// The category of each engine failure; a segment failure for want of a
/// dictionary has a category of its own.
pub open spec fn sdk_category_of(e: SdkError) -> SdkErrorCategory {
    match e {
        SdkError::Io(_) => SdkErrorCategory::Io,
        SdkError::JsonInvalid(_) => SdkErrorCategory::JsonInvalid,
        SdkError::SchemaInvalid(_) => SdkErrorCategory::SchemaInvalid,
        SdkError::SemanticInvalid(_) => SdkErrorCategory::SemanticInvalid,
        SdkError::AdmissionRejected(_) => SdkErrorCategory::AdmissionRejected,
        SdkError::AdmissionInvalid(_) => SdkErrorCategory::AdmissionInvalid,
        SdkError::ClockFailed(_) => SdkErrorCategory::ClockFailed,
        SdkError::Segment(s) => if category_of(s) == SegmentErrorCategory::MissingDictionary {
            SdkErrorCategory::MissingDictionary
        } else {
            SdkErrorCategory::SegmentInvalid
        },
        SdkError::Catalog(_) => SdkErrorCategory::CatalogInvalid,
        SdkError::CatalogDisagreement(_) => SdkErrorCategory::CatalogDisagreement,
        SdkError::StagingCorrupt(_) => SdkErrorCategory::StagingCorrupt,
        SdkError::NoPendingRecords => SdkErrorCategory::NoPendingRecords,
        SdkError::UnexpectedStorageEntry(_) => SdkErrorCategory::UnexpectedStorageEntry,
        SdkError::RecoveryRequired(_) => SdkErrorCategory::RecoveryRequired,
    }
}

impl SdkError {
    /// The category of the failure.
    pub fn category(&self) -> (category: SdkErrorCategory)
        ensures
            category == sdk_category_of(*self),
    {
        match self {
            SdkError::Io(_) => SdkErrorCategory::Io,
            SdkError::JsonInvalid(_) => SdkErrorCategory::JsonInvalid,
            SdkError::SchemaInvalid(_) => SdkErrorCategory::SchemaInvalid,
            SdkError::SemanticInvalid(_) => SdkErrorCategory::SemanticInvalid,
            SdkError::AdmissionRejected(_) => SdkErrorCategory::AdmissionRejected,
            SdkError::AdmissionInvalid(_) => SdkErrorCategory::AdmissionInvalid,
            SdkError::ClockFailed(_) => SdkErrorCategory::ClockFailed,
            SdkError::Segment(error) => {
                if error.category() == SegmentErrorCategory::MissingDictionary {
                    SdkErrorCategory::MissingDictionary
                } else {
                    SdkErrorCategory::SegmentInvalid
                }
            },
            SdkError::Catalog(_) => SdkErrorCategory::CatalogInvalid,
            SdkError::CatalogDisagreement(_) => SdkErrorCategory::CatalogDisagreement,
            SdkError::StagingCorrupt(_) => SdkErrorCategory::StagingCorrupt,
            SdkError::NoPendingRecords => SdkErrorCategory::NoPendingRecords,
            SdkError::UnexpectedStorageEntry(_) => SdkErrorCategory::UnexpectedStorageEntry,
            SdkError::RecoveryRequired(_) => SdkErrorCategory::RecoveryRequired,
        }
    }

    /// The engine failure of a record that breaks the evidence schema.
    pub fn from_schema(error: &SchemaError) -> (converted: SdkError)
        ensures
            converted matches SdkError::SchemaInvalid(m) && m@ == schema_message_of(error@),
    {
        SdkError::SchemaInvalid(error.message())
    }

    /// The engine failure of a history that does not replay.
    pub fn from_core(error: &CoreError) -> (converted: SdkError)
        ensures
            converted matches SdkError::SemanticInvalid(m) && m@ == core_message_of(*error),
    {
        SdkError::SemanticInvalid(error.message())
    }
}

/// The snake-case name a failure category is reported under.
pub open spec fn category_text(category: SdkErrorCategory) -> Seq<char> {
    match category {
        SdkErrorCategory::Io => "io"@,
        SdkErrorCategory::JsonInvalid => "json_invalid"@,
        SdkErrorCategory::SchemaInvalid => "schema_invalid"@,
        SdkErrorCategory::SemanticInvalid => "semantic_invalid"@,
        SdkErrorCategory::AdmissionRejected => "admission_rejected"@,
        SdkErrorCategory::AdmissionInvalid => "admission_invalid"@,
        SdkErrorCategory::ClockFailed => "clock_failed"@,
        SdkErrorCategory::SegmentInvalid => "segment_invalid"@,
        SdkErrorCategory::MissingDictionary => "missing_dictionary"@,
        SdkErrorCategory::CatalogInvalid => "catalog_invalid"@,
        SdkErrorCategory::CatalogDisagreement => "catalog_disagreement"@,
        SdkErrorCategory::StagingCorrupt => "staging_corrupt"@,
        SdkErrorCategory::NoPendingRecords => "no_pending_records"@,
        SdkErrorCategory::UnexpectedStorageEntry => "unexpected_storage_entry"@,
        SdkErrorCategory::RecoveryRequired => "recovery_required"@,
    }
}

/// The name a failure category is reported under.
pub fn category_name(category: SdkErrorCategory) -> (name: &'static str)
    ensures
        name@ == category_text(category),
{
    match category {
        SdkErrorCategory::Io => "io",
        SdkErrorCategory::JsonInvalid => "json_invalid",
        SdkErrorCategory::SchemaInvalid => "schema_invalid",
        SdkErrorCategory::SemanticInvalid => "semantic_invalid",
        SdkErrorCategory::AdmissionRejected => "admission_rejected",
        SdkErrorCategory::AdmissionInvalid => "admission_invalid",
        SdkErrorCategory::ClockFailed => "clock_failed",
        SdkErrorCategory::SegmentInvalid => "segment_invalid",
        SdkErrorCategory::MissingDictionary => "missing_dictionary",
        SdkErrorCategory::CatalogInvalid => "catalog_invalid",
        SdkErrorCategory::CatalogDisagreement => "catalog_disagreement",
        SdkErrorCategory::StagingCorrupt => "staging_corrupt",
        SdkErrorCategory::NoPendingRecords => "no_pending_records",
        SdkErrorCategory::UnexpectedStorageEntry => "unexpected_storage_entry",
        SdkErrorCategory::RecoveryRequired => "recovery_required",
    }
}

/// The field of an envelope that receives the admission time.
pub open spec fn time_field_of(api_version: Seq<char>) -> Option<Seq<char>> {
    if api_version == "fabric.observation/v1"@ || api_version == "fabric.correction/v1"@ {
        Some("recorded_at"@)
    } else if api_version == "fabric.frontier/v1"@ {
        Some("as_of_recorded_at"@)
    } else {
        None
    }
}

/// The field of an envelope that receives the admission time, or the refusal of an
/// envelope the engine does not admit.
pub fn admission_time_field(api_version: &str) -> (result: Result<&'static str, SdkError>)
    ensures
        match time_field_of(api_version@) {
            Some(field) => (result matches Ok(f) && f@ == field),
            None => (result matches Err(SdkError::AdmissionInvalid(m)) && m@ == "unsupported evidence envelope "@
                + api_version@),
        },
{
    if text_equal(api_version, "fabric.observation/v1") || text_equal(api_version, "fabric.correction/v1") {
        proof {
            reveal_strlit("recorded_at");
        }
        Ok("recorded_at")
    } else if text_equal(api_version, "fabric.frontier/v1") {
        proof {
            reveal_strlit("as_of_recorded_at");
        }
        Ok("as_of_recorded_at")
    } else {
        let mut message = "unsupported evidence envelope ".to_owned();
        message.append(api_version);
        Err(SdkError::AdmissionInvalid(message))
    }
}

/// The admission time a record carries: `recorded_at`, or a frontier's
/// `as_of_recorded_at`.
pub open spec fn admitted_at(record: EvidenceRecord) -> Timestamp {
    match record {
        EvidenceRecord::Observation(o) => o.recorded_at,
        EvidenceRecord::Correction(c) => c.recorded_at,
        EvidenceRecord::Frontier(f) => f.as_of_recorded_at,
    }
}

/// The record with its admission time replaced and nothing else changed.
pub open spec fn with_admitted_at(record: EvidenceRecord, t: Timestamp) -> EvidenceRecord {
    match record {
        EvidenceRecord::Observation(o) => EvidenceRecord::Observation(
            Box::new(crate::schema::Observation { recorded_at: t, ..*o }),
        ),
        EvidenceRecord::Correction(c) => EvidenceRecord::Correction(crate::schema::Correction { recorded_at: t, ..c }),
        EvidenceRecord::Frontier(f) => EvidenceRecord::Frontier(crate::schema::Frontier { as_of_recorded_at: t, ..f }),
    }
}

/// Replaces a record's admission time.
pub fn assign_recorded_at(record: &mut EvidenceRecord, timestamp: Timestamp)
    ensures
        *final(record) == with_admitted_at(*old(record), timestamp),
{
    match record {
        EvidenceRecord::Observation(o) => o.recorded_at = timestamp,
        EvidenceRecord::Correction(c) => c.recorded_at = timestamp,
        EvidenceRecord::Frontier(f) => f.as_of_recorded_at = timestamp,
    }
}

/// The admission times of records, in order.
pub open spec fn admission_times(records: Seq<EvidenceRecord>) -> Seq<Timestamp> {
    records.map_values(|r: EvidenceRecord| admitted_at(r))
}

/// The latest admission time of a non-empty batch: among records with the latest
/// instant, the last one's.
pub fn latest_recorded_at(records: &[EvidenceRecord]) -> (latest: Timestamp)
    requires
        records@.len() > 0,
    ensures
        exists|j: int| last_greatest(admission_times(records@), j) && latest == admission_times(records@)[j],
{
    let ghost ts = admission_times(records@);
    let mut best: usize = 0;
    let mut best_at = record_admitted_at(&records[0]).instant();
    let mut i: usize = 1;
    while i < records.len()
        invariant
            1 <= i <= records@.len(),
            ts == admission_times(records@),
            best < i,
            rfc3339_instant(ts[best as int]@) == Some(best_at as int),
            forall|k: int| 0 <= k < i ==> crate::segment::instant_of(#[trigger] ts[k]) <= best_at,
            forall|k: int| best < k < i ==> crate::segment::instant_of(#[trigger] ts[k]) < best_at,
        decreases records@.len() - i,
    {
        let at = record_admitted_at(&records[i]).instant();
        if at >= best_at {
            best = i;
            best_at = at;
        }
        i = i + 1;
    }
    proof {
        assert(last_greatest(ts, best as int));
    }
    record_admitted_at(&records[best]).clone()
}

fn record_admitted_at(record: &EvidenceRecord) -> (t: &Timestamp)
    ensures
        *t == admitted_at(*record),
{
    match record {
        EvidenceRecord::Observation(o) => &o.recorded_at,
        EvidenceRecord::Correction(c) => &c.recorded_at,
        EvidenceRecord::Frontier(f) => &f.as_of_recorded_at,
    }
}

/// What admission makes of a record before the policy sees it, and again after:
/// the record with the admission time, or the message of the schema fault that
/// record has.
pub open spec fn stamped_outcome(record: EvidenceRecord, assigned: Timestamp) -> Result<EvidenceRecord, Seq<char>> {
    let stamped = with_admitted_at(record, assigned);
    match record_fault(stamped) {
        Some(f) => Err(schema_message_of(f)),
        None => Ok(stamped),
    }
}

/// An engine result that is exactly this stamping outcome.
pub open spec fn stamped_result(result: Result<EvidenceRecord, SdkError>, outcome: Result<EvidenceRecord, Seq<char>>) -> bool {
    match outcome {
        Ok(r) => result matches Ok(x) && x == r,
        Err(m) => result matches Err(SdkError::SchemaInvalid(x)) && x@ == m,
    }
}

/// What admission makes of the policy's answer: its refusal, or the answer
/// stamped with the admission time and validated again.
pub open spec fn policy_result(
    answer: Result<EvidenceRecord, AdmissionPolicyError>,
    assigned: Timestamp,
    result: Result<EvidenceRecord, SdkError>,
) -> bool {
    match answer {
        Err(e) => result matches Err(SdkError::AdmissionRejected(x)) && x == e,
        Ok(r) => stamped_result(result, stamped_outcome(r, assigned)),
    }
}

/// Stamps a record with its admission time and validates it.
pub fn stamp_admission(record: EvidenceRecord, assigned: &Timestamp) -> (result: Result<EvidenceRecord, SdkError>)
    ensures
        stamped_result(result, stamped_outcome(record, *assigned)),
{
    let mut record = record;
    assign_recorded_at(&mut record, assigned.clone());
    match record.validate() {
        Err(e) => {
            return Err(SdkError::from_schema(&e));
        },
        Ok(()) => {},
    }
    Ok(record)
}

/// Accepts the policy's answer: a refusal is the admission's refusal; a record is
/// stamped with the admission time again, since the policy may not move it, and
/// validated again.
pub fn accept_policy_answer(answer: Result<EvidenceRecord, AdmissionPolicyError>, assigned: &Timestamp) -> (result:
    Result<EvidenceRecord, SdkError>)
    ensures
        policy_result(answer, *assigned, result),
{
    match answer {
        Err(e) => Err(SdkError::AdmissionRejected(e)),
        Ok(record) => stamp_admission(record, assigned),
    }
}

/// Admits a record at the assigned time through the policy: stamp and validate,
/// let the policy classify and redact, then stamp and validate what it returns.
/// The history check follows, before anything is staged.
pub fn admit_record<P: AdmissionPolicy>(record: EvidenceRecord, assigned: &Timestamp, policy: &P) -> (result: Result<
    EvidenceRecord,
    SdkError,
>)
    ensures
        match stamped_outcome(record, *assigned) {
            Err(m) => result matches Err(SdkError::SchemaInvalid(x)) && x@ == m,
            Ok(stamped) => exists|answer: Result<EvidenceRecord, AdmissionPolicyError>|
                #[trigger] call_ensures(P::classify_and_redact, (policy, stamped), answer) && policy_result(
                    answer,
                    *assigned,
                    result,
                ),
        },
{
    let stamped = stamp_admission(record, assigned)?;
    let answer = policy.classify_and_redact(stamped);
    accept_policy_answer(answer, assigned)
}

/// Admission owns the admission time: whatever the caller or the policy put in a
/// record, an admitted record carries exactly the time the engine assigned, and
/// differs from the policy's answer in nothing else.
pub proof fn lemma_admission_owns_recorded_at(
    answer: Result<EvidenceRecord, AdmissionPolicyError>,
    assigned: Timestamp,
    result: Result<EvidenceRecord, SdkError>,
)
    requires
        policy_result(answer, assigned, result),
        result is Ok,
    ensures
        answer is Ok,
        admitted_at(result->Ok_0) == assigned,
        result->Ok_0 == with_admitted_at(answer->Ok_0, assigned),
        record_fault(result->Ok_0) is None,
{
}

/// Replays a history through the one semantic implementation; a refusal is the
/// engine's semantic failure with the refusal's message.
pub fn replay_history(records: Vec<EvidenceRecord>) -> (result: Result<EvidenceState, SdkError>)
    ensures
        result is Ok <==> replay_succeeds(records@),
        match result {
            Ok(state) => state@ == replayed_state(records@),
            Err(e) => exists|c: CoreError|
                #[trigger] refusal_describes(records@, c) && (e matches SdkError::SemanticInvalid(m) && m@
                    == core_message_of(c)),
        },
{
    match EvidenceState::replay(records) {
        Ok(state) => Ok(state),
        Err(c) => Err(SdkError::from_core(&c)),
    }
}

/// The length of the staging journal after appending a row, or its refusal when
/// that passes the journal's bound.
pub fn staging_next_length(existing: u64, row_length: usize) -> (result: Result<u64, SdkError>)
    ensures
        existing + row_length + 1 > 18446744073709551615 ==> (result matches Err(SdkError::StagingCorrupt(m))
            && m@ == "staging length overflow"@),
        existing + row_length + 1 <= 18446744073709551615 && existing + row_length + 1 > 268435456 ==> (
        result matches Err(SdkError::StagingCorrupt(m)) && m@ == "staging exceeds "@ + decimal_text(268435456)
            + " bytes"@),
        existing + row_length + 1 <= 268435456 ==> result == Ok::<u64, SdkError>((existing + row_length + 1) as u64),
{
    if row_length as u64 >= 18446744073709551615u64 - existing {
        return Err(SdkError::StagingCorrupt("staging length overflow".to_owned()));
    }
    let next = existing + row_length as u64 + 1;
    if next > MAX_STAGING_BYTES {
        let mut message = "staging exceeds ".to_owned();
        message.append(decimal(MAX_STAGING_BYTES).as_str());
        message.append(" bytes");
        return Err(SdkError::StagingCorrupt(message));
    }
    Ok(next)
}

/// A temporary file a write left behind: a dot file ending in `.partial`.
pub open spec fn is_partial_name(name: Seq<char>) -> bool {
    &&& name.len() >= 1
    &&& name[0] == '.'
    &&& name.len() >= 8
    &&& name.subrange(name.len() - 8, name.len() as int) == ".partial"@
}

/// Whether a file name is one a write left behind.
pub fn is_partial_file_name(name: &str) -> (partial: bool)
    ensures
        partial == is_partial_name(name@),
{
    let n = name.unicode_len();
    proof {
        reveal_strlit(".partial");
    }
    n >= 8 && name.get_char(0) == '.' && text_equal(name.substring_char(n - 8, n), ".partial")
}

/// A file name whose extension, as paths read it, is `fseg`.
pub open spec fn has_segment_extension(name: Seq<char>) -> bool {
    &&& name.len() > 5
    &&& name.subrange(name.len() - 5, name.len() as int) == ".fseg"@
}

/// Whether a file name has the segment extension.
pub fn is_segment_file(name: &str) -> (segment: bool)
    ensures
        segment == has_segment_extension(name@),
{
    let n = name.unicode_len();
    proof {
        reveal_strlit(".fseg");
    }
    n > 5 && text_equal(name.substring_char(n - 5, n), ".fseg")
}

/// The file name of the segment with this id.
pub fn segment_file_name(segment_id: &str) -> (name: String)
    ensures
        name@ == segment_id@ + ".fseg"@,
{
    let mut name = segment_id.to_owned();
    name.append(".fseg");
    name
}

/// The staging row checks, in row order: a blank row, an unreadable row, a record
/// that breaks the evidence schema, a row that is not its record's canonical JSON.
pub open spec fn staging_row_fault(piece: Seq<u8>, reading: RowReading, i: int) -> Option<(bool, Seq<char>)> {
    if piece.len() == 0 {
        Some((true, "staging row "@ + decimal_text(i as nat) + " is blank"@))
    } else {
        match reading {
            RowReading::Invalid(message) => Some((true, "staging row "@ + decimal_text(i as nat) + ": "@ + message@)),
            RowReading::Parsed { record, canonical } => match crate::schema::record_fault(record) {
                Some(f) => Some((false, schema_message_of(f))),
                None => if canonical@ != piece {
                    Some((true, "staging row "@ + decimal_text(i as nat) + " is not canonical"@))
                } else {
                    None
                },
            },
        }
    }
}

/// The staging failure a row check reports: a corrupt journal, or a record that
/// breaks the evidence schema.
pub open spec fn staging_error_matches(e: SdkError, fault: (bool, Seq<char>)) -> bool {
    if fault.0 {
        e matches SdkError::StagingCorrupt(m) && m@ == fault.1
    } else {
        e matches SdkError::SchemaInvalid(m) && m@ == fault.1
    }
}

fn check_staging_row(piece: &Vec<u8>, reading: &RowReading, i: usize) -> (fault: Option<SdkError>)
    ensures
        match fault {
            Some(e) => staging_row_fault(piece@, *reading, i as int) matches Some(f) && staging_error_matches(e, f),
            None => staging_row_fault(piece@, *reading, i as int) is None,
        },
{
    if piece.len() == 0 {
        let mut message = "staging row ".to_owned();
        message.append(decimal(i as u64).as_str());
        message.append(" is blank");
        return Some(SdkError::StagingCorrupt(message));
    }
    match reading {
        RowReading::Invalid(text) => {
            let mut message = "staging row ".to_owned();
            message.append(decimal(i as u64).as_str());
            message.append(": ");
            message.append(text.as_str());
            Some(SdkError::StagingCorrupt(message))
        },
        RowReading::Parsed { record, canonical } => {
            match record.validate() {
                Err(e) => {
                    return Some(SdkError::from_schema(&e));
                },
                Ok(()) => {},
            }
            if !bytes_equal(canonical.as_slice(), piece.as_slice()) {
                let mut message = "staging row ".to_owned();
                message.append(decimal(i as u64).as_str());
                message.append(" is not canonical");
                return Some(SdkError::StagingCorrupt(message));
            }
            None
        },
    }
}

/// Reads the staging journal's records, given what the caller read from each row
/// that `split_lines_of` gives for the journal without its final line feed. An
/// empty journal holds nothing; a journal must end with a line feed; the first
/// rejected row decides the failure.
pub fn decode_staging(bytes: &[u8], readings: Vec<RowReading>) -> (result: Result<Vec<EvidenceRecord>, SdkError>)
    requires
        bytes@.len() > 0 && bytes@.last() == 10 ==> readings@.len() == content_rows(bytes@).len(),
    ensures
        bytes@.len() == 0 ==> (result matches Ok(records) && records@.len() == 0),
        bytes@.len() > 0 && bytes@.last() != 10 ==> (result matches Err(SdkError::StagingCorrupt(m))
            && m@ == "staging is truncated before LF"@),
        bytes@.len() > 0 && bytes@.last() == 10 ==> match result {
            Ok(records) => {
                &&& records@.len() == readings@.len()
                &&& forall|i: int|
                    0 <= i < readings@.len() ==> staging_row_fault(content_rows(bytes@)[i], readings@[i], i) is None
                        && (readings@[i] matches RowReading::Parsed { record, .. } && #[trigger] records@[i] == record)
            },
            Err(e) => exists|i: int|
                0 <= i < readings@.len() && (forall|k: int|
                    0 <= k < i ==> staging_row_fault(content_rows(bytes@)[k], readings@[k], k) is None)
                    && (#[trigger] staging_row_fault(content_rows(bytes@)[i], readings@[i], i) matches Some(f)
                    && staging_error_matches(e, f)),
        },
{
    let n = bytes.len();
    if n == 0 {
        return Ok(Vec::new());
    }
    if bytes[n - 1] != 10u8 {
        return Err(SdkError::StagingCorrupt("staging is truncated before LF".to_owned()));
    }
    let pieces = split_lines_of(&bytes[0..n - 1]);
    proof {
        assert(bytes@.subrange(0, n - 1) =~= bytes@.drop_last());
    }
    let ghost all = readings@;
    let mut rest = readings;
    let mut records: Vec<EvidenceRecord> = Vec::new();
    let mut i: usize = 0;
    proof {
        assert(rest@ =~= all.subrange(0, all.len() as int));
    }
    while i < pieces.len()
        invariant
            0 <= i <= pieces@.len(),
            bytes@.len() > 0 && bytes@.last() == 10,
            row_bytes(pieces@) == content_rows(bytes@),
            all == readings@,
            all.len() == pieces@.len(),
            rest@ == all.subrange(i as int, all.len() as int),
            records@.len() == i,
            forall|k: int| 0 <= k < i ==> staging_row_fault(content_rows(bytes@)[k], all[k], k) is None,
            forall|k: int|
                0 <= k < i ==> (all[k] matches RowReading::Parsed { record, .. } && #[trigger] records@[k] == record),
        decreases pieces@.len() - i,
    {
        proof {
            assert(rest@[0] == all[i as int]);
            assert(row_bytes(pieces@)[i as int] == pieces@[i as int]@);
        }
        let reading = rest.remove(0);
        proof {
            assert(rest@ =~= all.subrange(i + 1, all.len() as int));
        }
        match check_staging_row(&pieces[i], &reading, i) {
            Some(e) => {
                return Err(e);
            },
            None => {},
        }
        match reading {
            RowReading::Parsed { record, canonical } => {
                records.push(record);
            },
            RowReading::Invalid(_) => {
                proof {
                    assert(false);
                }
            },
        }
        i = i + 1;
    }
    Ok(records)
}

/// Checks an entry of the segment directory: a temporary file left by a write
/// means recovery must run again; anything without the segment extension does
/// not belong there.
pub fn check_storage_entry(name: &str) -> (result: Result<(), SdkError>)
    ensures
        is_partial_name(name@) ==> (result matches Err(SdkError::RecoveryRequired(m)) && m@
            == "partial file appeared during operation: "@ + name@),
        !is_partial_name(name@) && !has_segment_extension(name@) ==> (result matches Err(
            SdkError::UnexpectedStorageEntry(m),
        ) && m@ == name@),
        !is_partial_name(name@) && has_segment_extension(name@) ==> result is Ok,
{
    if is_partial_file_name(name) {
        let mut message = "partial file appeared during operation: ".to_owned();
        message.append(name);
        return Err(SdkError::RecoveryRequired(message));
    }
    if !is_segment_file(name) {
        return Err(SdkError::UnexpectedStorageEntry(name.to_owned()));
    }
    Ok(())
}

/// Checks that a segment file is named by the identity of the segment it holds.
pub fn check_segment_file_name(file_name: &str, segment_id: &str) -> (result: Result<(), SdkError>)
    ensures
        result is Ok <==> file_name@ == segment_id@ + ".fseg"@,
        result matches Err(e) ==> (e matches SdkError::CatalogDisagreement(m) && m@ == "segment filename "@
            + file_name@ + " does not match identity "@ + segment_id@),
{
    let expected = segment_file_name(segment_id);
    if !text_equal(file_name, expected.as_str()) {
        let mut message = "segment filename ".to_owned();
        message.append(file_name);
        message.append(" does not match identity ");
        message.append(segment_id);
        return Err(SdkError::CatalogDisagreement(message));
    }
    Ok(())
}

/// The file a segment id was found in: that of its last discovery, as a map
/// keyed by id keeps it.
pub open spec fn discovered_path(discovered: Seq<(String, String)>, id: Seq<char>) -> Option<Seq<char>>
    decreases discovered.len(),
{
    if discovered.len() == 0 {
        None
    } else if discovered.last().0@ == id {
        Some(discovered.last().1@)
    } else {
        discovered_path(discovered.drop_last(), id)
    }
}

/// The file a segment id was found in, if any.
pub fn find_discovered<'a>(discovered: &'a [(String, String)], id: &str) -> (path: Option<&'a String>)
    ensures
        match path {
            Some(p) => discovered_path(discovered@, id@) == Some(p@),
            None => discovered_path(discovered@, id@) is None,
        },
{
    let mut i: usize = discovered.len();
    proof {
        assert(discovered@.subrange(0, i as int) =~= discovered@);
    }
    while i > 0
        invariant
            0 <= i <= discovered@.len(),
            discovered_path(discovered@, id@) == discovered_path(discovered@.subrange(0, i as int), id@),
        decreases i,
    {
        let ghost prefix = discovered@.subrange(0, i as int);
        proof {
            assert(prefix.drop_last() =~= discovered@.subrange(0, i - 1));
            assert(prefix.last() == discovered@[i - 1]);
        }
        if text_equal(discovered[i - 1].0.as_str(), id) {
            return Some(&discovered[i - 1].1);
        }
        i = i - 1;
    }
    None
}

/// Every catalog entry names a segment found in immutable storage, in the file
/// the catalog records for it.
pub open spec fn catalog_entry_found(entry: CatalogSegment, discovered: Seq<(String, String)>) -> bool {
    discovered_path(discovered, entry.segment_id@) == Some(entry.relative_path@)
}

/// Checks every catalog entry against the segments found in storage, in catalog
/// order; the first entry not found decides the failure.
pub fn check_cataloged_segments(entries: &[CatalogSegment], discovered: &[(String, String)]) -> (result: Result<
    (),
    SdkError,
>)
    ensures
        result is Ok <==> forall|i: int| 0 <= i < entries@.len() ==> catalog_entry_found(#[trigger] entries@[i], discovered@),
        result matches Err(e) ==> exists|i: int|
            0 <= i < entries@.len() && !catalog_entry_found(#[trigger] entries@[i], discovered@) && (forall|k: int|
                0 <= k < i ==> catalog_entry_found(entries@[k], discovered@)) && (e matches SdkError::CatalogDisagreement(
                m,
            ) && m@ == "catalog segment "@ + entries@[i].segment_id@ + " is missing from immutable storage"@),
{
    let mut i: usize = 0;
    while i < entries.len()
        invariant
            0 <= i <= entries@.len(),
            forall|k: int| 0 <= k < i ==> catalog_entry_found(#[trigger] entries@[k], discovered@),
        decreases entries@.len() - i,
    {
        let entry = &entries[i];
        let found = match find_discovered(discovered, entry.segment_id.as_str()) {
            Some(path) => text_equal(path.as_str(), entry.relative_path.as_str()),
            None => false,
        };
        if !found {
            let mut message = "catalog segment ".to_owned();
            message.append(entry.segment_id.as_str());
            message.append(" is missing from immutable storage");
            return Err(SdkError::CatalogDisagreement(message));
        }
        i = i + 1;
    }
    Ok(())
}

/// Whether the staged batch was already sealed: its segment id was found in
/// storage, so the journal is redundant and may be cleared.
pub fn staging_is_redundant(staged_segment_id: &str, discovered: &[(String, String)]) -> (redundant: bool)
    ensures
        redundant == discovered_path(discovered@, staged_segment_id@) is Some,
{
    find_discovered(discovered, staged_segment_id).is_some()
}

/// Checks that storage and catalog hold the same set of segment files.
pub fn check_storage_paths(storage: &Vec<String>, catalog: &Vec<String>) -> (result: Result<(), SdkError>)
    ensures
        result is Ok <==> texts(storage@).to_set() == texts(catalog@).to_set(),
        result matches Err(e) ==> (e matches SdkError::CatalogDisagreement(m) && m@
            == "catalog paths and immutable segment paths differ"@),
{
    let mut i: usize = 0;
    while i < storage.len()
        invariant
            0 <= i <= storage@.len(),
            forall|k: int| 0 <= k < i ==> texts(catalog@).contains(#[trigger] texts(storage@)[k]),
        decreases storage@.len() - i,
    {
        if !contains_text(catalog, storage[i].as_str()) {
            proof {
                assert(texts(storage@).to_set().contains(texts(storage@)[i as int]));
                assert(!texts(catalog@).to_set().contains(texts(storage@)[i as int]));
            }
            return Err(SdkError::CatalogDisagreement("catalog paths and immutable segment paths differ".to_owned()));
        }
        i = i + 1;
    }
    let mut j: usize = 0;
    while j < catalog.len()
        invariant
            0 <= j <= catalog@.len(),
            forall|k: int| 0 <= k < storage@.len() ==> texts(catalog@).contains(#[trigger] texts(storage@)[k]),
            forall|k: int| 0 <= k < j ==> texts(storage@).contains(#[trigger] texts(catalog@)[k]),
        decreases catalog@.len() - j,
    {
        if !contains_text(storage, catalog[j].as_str()) {
            proof {
                assert(texts(catalog@).to_set().contains(texts(catalog@)[j as int]));
                assert(!texts(storage@).to_set().contains(texts(catalog@)[j as int]));
            }
            return Err(SdkError::CatalogDisagreement("catalog paths and immutable segment paths differ".to_owned()));
        }
        j = j + 1;
    }
    proof {
        assert forall|x: Seq<char>| texts(storage@).to_set().contains(x) == texts(catalog@).to_set().contains(x) by {
            if texts(storage@).contains(x) {
                let k = choose|k: int| 0 <= k < texts(storage@).len() && texts(storage@)[k] == x;
                assert(texts(catalog@).contains(texts(storage@)[k]));
            }
            if texts(catalog@).contains(x) {
                let k = choose|k: int| 0 <= k < texts(catalog@).len() && texts(catalog@)[k] == x;
                assert(texts(storage@).contains(texts(catalog@)[k]));
            }
        }
        assert(texts(storage@).to_set() =~= texts(catalog@).to_set());
    }
    Ok(())
}

/// Checks the catalog row of a decoded segment: it must exist and be exactly the
/// row the segment should have.
pub fn check_segment_entry(
    entry: Option<&CatalogSegment>,
    relative_path: &str,
    manifest: &SegmentManifest,
    manifest_json: String,
) -> (result: Result<(), SdkError>)
    ensures
        match entry {
            None => result matches Err(SdkError::CatalogDisagreement(m)) && m@ == "segment "@ + manifest.segment_id@
                + " is absent from catalog"@,
            Some(row) => if exceeds_sqlite(*manifest) {
                result matches Err(SdkError::Catalog(c)) && c is Disagreement
            } else if row@ == expected_row(relative_path@, *manifest, manifest_json@) {
                result is Ok
            } else {
                result matches Err(SdkError::CatalogDisagreement(m)) && m@ == "catalog metadata disagrees for segment "@
                    + manifest.segment_id@
            },
        },
{
    let row = match entry {
        Some(row) => row,
        None => {
            let mut message = "segment ".to_owned();
            message.append(manifest.segment_id.as_str());
            message.append(" is absent from catalog");
            return Err(SdkError::CatalogDisagreement(message));
        },
    };
    match row.agrees_with(relative_path, manifest, manifest_json) {
        Err(e) => Err(SdkError::Catalog(e)),
        Ok(true) => Ok(()),
        Ok(false) => {
            let mut message = "catalog metadata disagrees for segment ".to_owned();
            message.append(manifest.segment_id.as_str());
            Err(SdkError::CatalogDisagreement(message))
        },
    }
}

/// The catalog's integer for a row index, saturated at the largest one.
pub open spec fn row_index_of(i: int) -> i64 {
    if i <= 9223372036854775807 {
        i as i64
    } else {
        9223372036854775807
    }
}

/// Whether the catalog location found for record `i` of a segment places it there.
pub open spec fn location_found(
    segment_id: Seq<char>,
    records: Seq<EvidenceRecord>,
    locations: Seq<Option<RecordLocation>>,
    i: int,
) -> bool {
    locations[i] matches Some(l) && location_agrees(l, segment_id, row_index_of(i), records[i])
}

/// Checks the catalog location found for each record of a decoded segment, in row
/// order: a record with no location, or with a location elsewhere, is refused.
pub fn check_record_locations(segment_id: &str, records: &[EvidenceRecord], locations: &[Option<RecordLocation>]) -> (result:
    Result<(), SdkError>)
    requires
        locations@.len() == records@.len(),
    ensures
        result is Ok <==> forall|i: int| 0 <= i < records@.len() ==> #[trigger] location_found(segment_id@, records@, locations@, i),
        result matches Err(e) ==> exists|i: int|
            0 <= i < records@.len() && !#[trigger] location_found(segment_id@, records@, locations@, i) && (forall|k: int|
                0 <= k < i ==> location_found(segment_id@, records@, locations@, k)) && (e matches SdkError::CatalogDisagreement(
                m,
            ) && m@ == if locations@[i] is None {
                "record "@ + crate::schema::record_id_of(records@[i]) + " is absent from catalog"@
            } else {
                "record location disagrees for "@ + crate::schema::record_id_of(records@[i])
            }),
{
    let mut i: usize = 0;
    while i < records.len()
        invariant
            0 <= i <= records@.len(),
            locations@.len() == records@.len(),
            forall|k: int| 0 <= k < i ==> #[trigger] location_found(segment_id@, records@, locations@, k),
        decreases records@.len() - i,
    {
        let record = &records[i];
        let row_index: i64 = if i as u64 <= 9223372036854775807u64 { i as i64 } else { 9223372036854775807i64 };
        match &locations[i] {
            None => {
                let mut message = "record ".to_owned();
                message.append(record.record_id());
                message.append(" is absent from catalog");
                assert(!location_found(segment_id@, records@, locations@, i as int));
                return Err(SdkError::CatalogDisagreement(message));
            },
            Some(location) => {
                if !location.agrees_with(segment_id, row_index, record) {
                    let mut message = "record location disagrees for ".to_owned();
                    message.append(record.record_id());
                    assert(!location_found(segment_id@, records@, locations@, i as int));
                    return Err(SdkError::CatalogDisagreement(message));
                }
            },
        }
        i = i + 1;
    }
    Ok(())
}

/// Checks that the catalog holds one location row per archived record.
pub fn check_archived_count(catalog_records: usize, archived_records: usize) -> (result: Result<(), SdkError>)
    ensures
        result is Ok <==> catalog_records == archived_records,
        result matches Err(e) ==> (e matches SdkError::CatalogDisagreement(m) && m@ == "catalog has "@ + decimal_text(
            catalog_records as nat,
        ) + " record rows for "@ + decimal_text(archived_records as nat) + " archived records"@),
{
    if catalog_records != archived_records {
        let mut message = "catalog has ".to_owned();
        message.append(decimal(catalog_records as u64).as_str());
        message.append(" record rows for ");
        message.append(decimal(archived_records as u64).as_str());
        message.append(" archived records");
        return Err(SdkError::CatalogDisagreement(message));
    }
    Ok(())
}

/// An observation head row as plain values.
pub open spec fn head_view(h: ObservationHeadRow) -> (Seq<char>, Seq<char>, Seq<char>, Seq<char>) {
    (h.observation_id@, h.disposition_json@, h.qualifications_json@, h.correction_ids_json@)
}

/// Checks the maintained observation heads against those a replay derives.
pub fn check_heads(stored: &[ObservationHeadRow], expected: &[ObservationHeadRow]) -> (result: Result<(), SdkError>)
    ensures
        result is Ok <==> stored@.map_values(|h: ObservationHeadRow| head_view(h)) == expected@.map_values(
            |h: ObservationHeadRow| head_view(h),
        ),
        result matches Err(e) ==> (e matches SdkError::CatalogDisagreement(m) && m@
            == "maintained observation heads disagree with replay"@),
{
    let ghost a = stored@.map_values(|h: ObservationHeadRow| head_view(h));
    let ghost b = expected@.map_values(|h: ObservationHeadRow| head_view(h));
    if stored.len() != expected.len() {
        assert(a.len() != b.len());
        return Err(SdkError::CatalogDisagreement("maintained observation heads disagree with replay".to_owned()));
    }
    let mut i: usize = 0;
    while i < stored.len()
        invariant
            0 <= i <= stored@.len(),
            stored@.len() == expected@.len(),
            a == stored@.map_values(|h: ObservationHeadRow| head_view(h)),
            b == expected@.map_values(|h: ObservationHeadRow| head_view(h)),
            forall|k: int| 0 <= k < i ==> a[k] == b[k],
        decreases stored@.len() - i,
    {
        let x = &stored[i];
        let y = &expected[i];
        if !(text_equal(x.observation_id.as_str(), y.observation_id.as_str()) && text_equal(
            x.disposition_json.as_str(),
            y.disposition_json.as_str(),
        ) && text_equal(x.qualifications_json.as_str(), y.qualifications_json.as_str()) && text_equal(
            x.correction_ids_json.as_str(),
            y.correction_ids_json.as_str(),
        )) {
            assert(a[i as int] != b[i as int]);
            return Err(SdkError::CatalogDisagreement("maintained observation heads disagree with replay".to_owned()));
        }
        i = i + 1;
    }
    assert(a =~= b);
    Ok(())
}

/// The counts a full validation reports.
pub fn validation_report(
    segment_count: usize,
    archived_record_count: usize,
    pending_record_count: usize,
    state: &EvidenceState,
) -> (report: ValidationReport)
    ensures
        report.segment_count == segment_count,
        report.archived_record_count == archived_record_count,
        report.pending_record_count == pending_record_count,
        report.observation_count == state.observations@.len(),
        report.correction_count == state.corrections@.len(),
        report.frontier_count == state.frontiers@.len(),
{
    ValidationReport {
        segment_count,
        archived_record_count,
        pending_record_count,
        observation_count: state.observations.len(),
        correction_count: state.corrections.len(),
        frontier_count: state.frontiers.len(),
    }
}

/// How a staged batch is sealed: refused when nothing is pending; else created at
/// the batch's latest admission time, at level 3 with no dictionary.
pub fn seal_options(staged: &[EvidenceRecord]) -> (result: Result<EncodeOptions, SdkError>)
    ensures
        staged@.len() == 0 ==> (result matches Err(e) && e is NoPendingRecords),
        staged@.len() > 0 ==> (result matches Ok(options) && options.compression_level == 3
            && options.dictionary is None && exists|j: int|
            last_greatest(admission_times(staged@), j) && options.created_at == admission_times(staged@)[j]),
{
    if staged.len() == 0 {
        return Err(SdkError::NoPendingRecords);
    }
    Ok(EncodeOptions::new(latest_recorded_at(staged)))
}

/// Refuses a staging journal larger than its bound before it is read.
pub fn check_staging_size(length: u64) -> (result: Result<(), SdkError>)
    ensures
        result is Ok <==> length <= 268435456,
        result matches Err(e) ==> (e matches SdkError::StagingCorrupt(m) && m@ == "staging exceeds "@ + decimal_text(
            268435456,
        ) + " bytes"@),
{
    if length > MAX_STAGING_BYTES {
        let mut message = "staging exceeds ".to_owned();
        message.append(decimal(MAX_STAGING_BYTES).as_str());
        message.append(" bytes");
        return Err(SdkError::StagingCorrupt(message));
    }
    Ok(())
}

/// A command of the command line.
pub enum Command {
    Admit { input: String },
    Seal,
    Replay,
    Validate,
    Locate { record_id: String },
}

/// The usage text of the command line.
pub open spec fn usage_text() -> Seq<char> {
    "usage: fabricctl ROOT admit FILE|- | seal | replay | validate | locate RECORD_ID"@
}

/// The refusal that shows the command line's usage.
pub fn usage() -> (error: SdkError)
    ensures
        error matches SdkError::AdmissionInvalid(m) && m@ == usage_text(),
{
    SdkError::AdmissionInvalid("usage: fabricctl ROOT admit FILE|- | seal | replay | validate | locate RECORD_ID".to_owned())
}

/// The command the arguments name, with its root directory, or `None` when they
/// name none.
pub open spec fn parsed_command(arguments: Seq<Seq<char>>) -> Option<(Seq<char>, Seq<char>, Option<Seq<char>>)> {
    if arguments.len() < 2 {
        None
    } else {
        let c = arguments[1];
        if (c == "admit"@ || c == "locate"@) && arguments.len() == 3 {
            Some((arguments[0], c, Some(arguments[2])))
        } else if (c == "seal"@ || c == "replay"@ || c == "validate"@) && arguments.len() == 2 {
            Some((arguments[0], c, None))
        } else {
            None
        }
    }
}

/// A command as its name and its argument.
pub open spec fn command_view(c: Command) -> (Seq<char>, Option<Seq<char>>) {
    match c {
        Command::Admit { input } => ("admit"@, Some(input@)),
        Command::Seal => ("seal"@, None),
        Command::Replay => ("replay"@, None),
        Command::Validate => ("validate"@, None),
        Command::Locate { record_id } => ("locate"@, Some(record_id@)),
    }
}

/// Reads the root directory and the command from the command line's arguments.
pub fn parse_args(arguments: Vec<String>) -> (result: Result<(String, Command), SdkError>)
    ensures
        match parsed_command(crate::text::texts(arguments@)) {
            Some((root, name, argument)) => (result matches Ok((r, c)) && r@ == root && command_view(c) == (
            name,
            argument,
            )),
            None => (result matches Err(SdkError::AdmissionInvalid(m)) && m@ == usage_text()),
        },
{
    let ghost args = crate::text::texts(arguments@);
    if arguments.len() < 2 {
        return Err(usage());
    }
    proof {
        assert(args[0] == arguments@[0]@);
        assert(args[1] == arguments@[1]@);
        if arguments@.len() == 3 {
            assert(args[2] == arguments@[2]@);
        }
        reveal_strlit("admit");
        reveal_strlit("seal");
        reveal_strlit("replay");
        reveal_strlit("validate");
        reveal_strlit("locate");
    }
    let name = arguments[1].as_str();
    let n = arguments.len();
    let command = if text_equal(name, "admit") && n == 3 {
        Command::Admit { input: arguments[2].clone() }
    } else if text_equal(name, "seal") && n == 2 {
        Command::Seal
    } else if text_equal(name, "replay") && n == 2 {
        Command::Replay
    } else if text_equal(name, "validate") && n == 2 {
        Command::Validate
    } else if text_equal(name, "locate") && n == 3 {
        Command::Locate { record_id: arguments[2].clone() }
    } else {
        return Err(usage());
    };
    Ok((arguments[0].clone(), command))
}

} // verus!
