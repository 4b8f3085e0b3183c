//! Typed forms of the normative evidence envelopes and their validation rules.
//!
//! Set-valued fields are `TextSet`s (held in byte order, no value twice). JSON
//! payloads are carried as opaque `serde_json::Value`s. A frontier's sampling rate is
//! held as the IEEE-754 binary64 bit pattern of the admitted number.
use vstd::prelude::*;

use crate::ordering::{clock_view, LogicalTime, OrderingPoint, PointView, Timestamp};
use crate::text::{
    check_identifier, check_label, check_lower_hex_digest, decimal, decimal_text, is_identifier,
    is_label, is_lower_hex_digest, text_equal, TextSet,
};

verus! {

#[verifier::external_type_specification]
#[verifier::external_body]
pub struct ExJsonValue(serde_json::Value);

/// `serde_json::Value`'s derived `clone`, which the derived `Clone` of the records
/// that carry payloads calls; nothing is claimed of the copy, which records only
/// carry and never read.
pub assume_specification[ <serde_json::Value as Clone>::clone ](value: &serde_json::Value) -> serde_json::Value;

pub const OBSERVATION_VERSION: &'static str = "fabric.observation/v1";

pub const CORRECTION_VERSION: &'static str = "fabric.correction/v1";

pub const FRONTIER_VERSION: &'static str = "fabric.frontier/v1";

pub const ANSWER_VERSION: &'static str = "fabric.answer/v1";

#[derive(Clone, Debug, Eq, PartialEq, Ord, PartialOrd)]
pub struct Producer {
    pub producer_id: String,
    pub stream_id: String,
}

/// A producer stream as plain values.
pub open spec fn producer_key(p: Producer) -> (Seq<char>, Seq<char>) {
    (p.producer_id@, p.stream_id@)
}

/// No producer stream occurs twice in a list.
pub open spec fn distinct_producers(ps: Seq<Producer>) -> bool {
    forall|i: int, j: int| 0 <= i < j < ps.len() ==> producer_key(#[trigger] ps[i]) != producer_key(#[trigger] ps[j])
}

/// Whether a list names each producer stream at most once: a list that must hold
/// distinct values is refused rather than collapsed.
pub fn producers_unique(ps: &Vec<Producer>) -> (unique: bool)
    ensures
        unique == distinct_producers(ps@),
{
    let mut j: usize = 0;
    while j < ps.len()
        invariant
            0 <= j <= ps@.len(),
            forall|a: int, b: int| 0 <= a < b < j ==> producer_key(#[trigger] ps@[a]) != producer_key(#[trigger] ps@[b]),
        decreases ps@.len() - j,
    {
        let mut i: usize = 0;
        while i < j
            invariant
                0 <= i <= j < ps@.len(),
                forall|a: int| 0 <= a < i ==> producer_key(#[trigger] ps@[a]) != producer_key(ps@[j as int]),
            decreases j - i,
        {
            if text_equal(ps[i].producer_id.as_str(), ps[j].producer_id.as_str()) && text_equal(
                ps[i].stream_id.as_str(),
                ps[j].stream_id.as_str(),
            ) {
                assert(producer_key(ps@[i as int]) == producer_key(ps@[j as int]));
                return false;
            }
            i = i + 1;
        }
        j = j + 1;
    }
    true
}

#[derive(Clone, Copy, Debug, Eq, PartialEq, Structural)]
pub enum EpistemicClass {
    ObservedFact,
    DerivedConclusion,
    Correlation,
    Assumption,
}

#[derive(Clone, Debug, Eq, PartialEq)]
pub enum Interpretation {
    ObservedFact,
    DerivedConclusion { derivation_id: String, input_ids: TextSet },
    Correlation { related_ids: TextSet },
    Assumption { statement: String },
}

/// The epistemic class an interpretation kind belongs to.
pub open spec fn class_of(interpretation: Interpretation) -> EpistemicClass {
    match interpretation {
        Interpretation::ObservedFact => EpistemicClass::ObservedFact,
        Interpretation::DerivedConclusion { .. } => EpistemicClass::DerivedConclusion,
        Interpretation::Correlation { .. } => EpistemicClass::Correlation,
        Interpretation::Assumption { .. } => EpistemicClass::Assumption,
    }
}

impl Interpretation {
    pub fn epistemic_class(&self) -> (class: EpistemicClass)
        ensures
            class == class_of(*self),
    {
        match self {
            Interpretation::ObservedFact => EpistemicClass::ObservedFact,
            Interpretation::DerivedConclusion { .. } => EpistemicClass::DerivedConclusion,
            Interpretation::Correlation { .. } => EpistemicClass::Correlation,
            Interpretation::Assumption { .. } => EpistemicClass::Assumption,
        }
    }
}

#[derive(Clone, Debug, Eq, PartialEq)]
pub struct Relations {
    pub parents: TextSet,
    pub links: TextSet,
    pub correlations: TextSet,
}

#[derive(Clone, Debug, Eq, PartialEq)]
pub struct Integrity {
    pub algorithm: String,
    pub digest: String,
}

#[derive(Clone, Debug, Eq, PartialEq)]
pub struct Origin {
    pub source_type: String,
    pub source_id: String,
    pub schema: String,
    pub authority: Option<String>,
}

#[derive(Clone, Debug, PartialEq)]
pub struct Observation {
    pub api_version: String,
    pub observation_id: String,
    pub epistemic_class: EpistemicClass,
    pub interpretation: Interpretation,
    pub producer: Producer,
    pub observed_at: Option<Timestamp>,
    pub observed_by_at: Timestamp,
    pub recorded_at: Timestamp,
    pub producer_sequence: Option<u64>,
    pub logical_time: Option<LogicalTime>,
    pub relations: Relations,
    pub payload: serde_json::Value,
    pub payload_ref: Option<String>,
    pub integrity: Integrity,
    pub classification: String,
    pub origin: Origin,
    pub attributes: std::collections::BTreeMap<String, serde_json::Value>,
}

#[derive(Clone, Copy, Debug, Eq, PartialEq, Structural)]
pub enum CorrectionOperation {
    Retraction,
    Replacement,
    Qualification,
    Deduplication,
}

#[derive(Clone, Debug, Eq, PartialEq)]
pub struct Correction {
    pub api_version: String,
    pub correction_id: String,
    pub producer: Producer,
    pub observed_by_at: Timestamp,
    pub recorded_at: Timestamp,
    pub producer_sequence: Option<u64>,
    pub logical_time: Option<LogicalTime>,
    pub operation: CorrectionOperation,
    pub targets: TextSet,
    pub replacement_ids: Option<TextSet>,
    pub qualification: Option<String>,
    pub reason: String,
    pub provenance: TextSet,
    pub classification: String,
}

#[derive(Clone, Debug, Eq, PartialEq)]
pub struct SequenceGap {
    pub start: u64,
    pub end: u64,
    pub reason: String,
}

#[derive(Clone, Copy, Debug, Eq, PartialEq, Structural)]
pub enum SamplingMode {
    Complete,
    Sampled,
    Unknown,
}

/// How a frontier's producer samples. `rate_bits` holds the IEEE-754 binary64 bit
/// pattern of the admitted rate.
#[derive(Clone, Debug, Eq, PartialEq)]
pub struct Sampling {
    pub mode: SamplingMode,
    pub rate_bits: Option<u64>,
}

#[derive(Clone, Copy, Debug, Eq, PartialEq, Structural)]
pub enum ProducerState {
    Active,
    Paused,
    Retired,
    Unknown,
}

#[derive(Clone, Debug, PartialEq)]
pub struct Frontier {
    pub api_version: String,
    pub frontier_id: String,
    pub producer: Producer,
    pub as_of_recorded_at: Timestamp,
    pub producer_sequence_through: Option<u64>,
    pub logical_time_through: Option<LogicalTime>,
    pub known_gaps: Vec<SequenceGap>,
    pub retention_start: Option<Timestamp>,
    pub sampling: Sampling,
    pub producer_state: ProducerState,
    pub classification: String,
}

#[derive(Clone, Debug, Eq, PartialEq)]
pub struct ProvenanceItem {
    pub record_id: String,
    pub role: String,
    pub fields: Option<TextSet>,
}

#[derive(Clone, Debug, Eq, PartialEq)]
pub struct SourceCutoff {
    pub recorded_at: Timestamp,
    pub segment_ids: TextSet,
}

#[derive(Clone, Debug, Eq, PartialEq)]
pub struct FrontierReference {
    pub frontier_id: String,
    pub producer: Producer,
}

#[derive(Clone, Copy, Debug, Eq, PartialEq, Structural)]
pub enum CoverageStatus {
    Complete,
    Partial,
    Unknown,
}

#[derive(Clone, Debug, Eq, PartialEq)]
pub struct Coverage {
    pub status: CoverageStatus,
    pub requested_sources: Vec<Producer>,
    pub covered_sources: Vec<Producer>,
    pub notes: Vec<String>,
}

#[derive(Clone, Debug, Eq, PartialEq)]
pub struct AnswerAssumption {
    pub assumption_id: String,
    pub statement: String,
}

#[derive(Clone, Debug, Eq, PartialEq)]
pub struct AnswerConflict {
    pub conflict_id: String,
    pub record_ids: TextSet,
    pub description: String,
}

#[derive(Clone, Debug, PartialEq)]
pub struct Derivation {
    pub name: String,
    pub version: String,
    pub input_ids: TextSet,
    pub parameters: std::collections::BTreeMap<String, serde_json::Value>,
}

#[derive(Clone, Debug, PartialEq)]
pub struct Answer {
    pub api_version: String,
    pub answer_id: String,
    pub evaluated_at: Timestamp,
    pub result: serde_json::Value,
    pub provenance: Vec<ProvenanceItem>,
    pub source_cutoff: SourceCutoff,
    pub frontiers: Vec<FrontierReference>,
    pub missing_sources: Vec<Producer>,
    pub coverage: Coverage,
    pub assumptions: Vec<AnswerAssumption>,
    pub conflicts: Vec<AnswerConflict>,
    pub derivation: Derivation,
}

/// An appendable semantic record. Answers are derived output, not admitted evidence.
#[derive(Clone, Debug, PartialEq)]
pub enum EvidenceRecord {
    Observation(Box<Observation>),
    Correction(Correction),
    Frontier(Frontier),
}

#[derive(Clone, Debug, PartialEq)]
pub enum SchemaError {
    UnsupportedVersion { actual: String, expected: &'static str },
    EmptyField(&'static str),
    InvalidIdentifier(&'static str),
    InvalidClassification,
    MissingField(&'static str),
    UnexpectedField(&'static str),
    MixedEpistemicClass,
    TooFewRelatedRecords,
    TooFewConflictRecords,
    InvalidIntegrity,
    InvalidSequenceGap { start: u64, end: u64 },
    InvalidSampling,
    DeduplicationCanonicalCount,
}

/// The content of a schema error, with texts as character sequences.
pub ghost enum SchemaFault {
    UnsupportedVersion { actual: Seq<char>, expected: Seq<char> },
    EmptyField(Seq<char>),
    InvalidIdentifier(Seq<char>),
    InvalidClassification,
    MissingField(Seq<char>),
    UnexpectedField(Seq<char>),
    MixedEpistemicClass,
    TooFewRelatedRecords,
    TooFewConflictRecords,
    InvalidIntegrity,
    InvalidSequenceGap { start: u64, end: u64 },
    InvalidSampling,
    DeduplicationCanonicalCount,
}

impl View for SchemaError {
    type V = SchemaFault;

    open spec fn view(&self) -> SchemaFault {
        match self {
            SchemaError::UnsupportedVersion { actual, expected } => SchemaFault::UnsupportedVersion {
                actual: actual@,
                expected: expected@,
            },
            SchemaError::EmptyField(f) => SchemaFault::EmptyField(f@),
            SchemaError::InvalidIdentifier(f) => SchemaFault::InvalidIdentifier(f@),
            SchemaError::InvalidClassification => SchemaFault::InvalidClassification,
            SchemaError::MissingField(f) => SchemaFault::MissingField(f@),
            SchemaError::UnexpectedField(f) => SchemaFault::UnexpectedField(f@),
            SchemaError::MixedEpistemicClass => SchemaFault::MixedEpistemicClass,
            SchemaError::TooFewRelatedRecords => SchemaFault::TooFewRelatedRecords,
            SchemaError::TooFewConflictRecords => SchemaFault::TooFewConflictRecords,
            SchemaError::InvalidIntegrity => SchemaFault::InvalidIntegrity,
            SchemaError::InvalidSequenceGap { start, end } => SchemaFault::InvalidSequenceGap {
                start: *start,
                end: *end,
            },
            SchemaError::InvalidSampling => SchemaFault::InvalidSampling,
            SchemaError::DeduplicationCanonicalCount => SchemaFault::DeduplicationCanonicalCount,
        }
    }
}

/// The fault a validation result reports, if any.
pub open spec fn fault_of(result: Result<(), SchemaError>) -> Option<SchemaFault> {
    match result {
        Ok(_) => None,
        Err(e) => Some(e@),
    }
}

/// The earlier of two checks decides.
pub open spec fn first_fault(a: Option<SchemaFault>, b: Option<SchemaFault>) -> Option<SchemaFault> {
    if a is Some {
        a
    } else {
        b
    }
}

/// The first fault of checks made in order.
pub open spec fn first_some<T>(faults: Seq<Option<T>>) -> Option<T>
    decreases faults.len(),
{
    if faults.len() == 0 {
        None
    } else if faults[0] is Some {
        faults[0]
    } else {
        first_some(faults.drop_first())
    }
}

/// Checks that passed do not decide the outcome.
pub proof fn lemma_first_some_skip<T>(faults: Seq<Option<T>>, i: int)
    requires
        0 <= i <= faults.len(),
        forall|k: int| 0 <= k < i ==> (#[trigger] faults[k]) is None,
    ensures
        first_some(faults) == first_some(faults.skip(i)),
    decreases i,
{
    if i > 0 {
        assert(faults.skip(1) =~= faults.drop_first());
        lemma_first_some_skip(faults.drop_first(), i - 1);
        assert(faults.drop_first().skip(i - 1) =~= faults.skip(i));
    } else {
        assert(faults.skip(0) =~= faults);
    }
}

pub open spec fn version_fault(actual: Seq<char>, expected: Seq<char>) -> Option<SchemaFault> {
    if actual == expected {
        None
    } else {
        Some(SchemaFault::UnsupportedVersion { actual, expected })
    }
}

pub open spec fn id_fault(value: Seq<char>, field: Seq<char>) -> Option<SchemaFault> {
    if is_identifier(value) {
        None
    } else {
        Some(SchemaFault::InvalidIdentifier(field))
    }
}

pub open spec fn ids_fault(values: Seq<Seq<char>>, field: Seq<char>) -> Option<SchemaFault> {
    if forall|i: int| 0 <= i < values.len() ==> is_identifier(#[trigger] values[i]) {
        None
    } else {
        Some(SchemaFault::InvalidIdentifier(field))
    }
}

pub open spec fn text_fault(value: Seq<char>, field: Seq<char>) -> Option<SchemaFault> {
    if value.len() == 0 {
        Some(SchemaFault::EmptyField(field))
    } else {
        None
    }
}

pub open spec fn classification_fault(value: Seq<char>) -> Option<SchemaFault> {
    if is_label(value) {
        None
    } else {
        Some(SchemaFault::InvalidClassification)
    }
}

pub open spec fn nonempty_fault(values: Seq<Seq<char>>, field: Seq<char>) -> Option<SchemaFault> {
    if values.len() == 0 {
        Some(SchemaFault::MissingField(field))
    } else {
        None
    }
}

pub open spec fn absent_fault<T>(value: Option<T>, field: Seq<char>) -> Option<SchemaFault> {
    if value is Some {
        Some(SchemaFault::UnexpectedField(field))
    } else {
        None
    }
}

pub open spec fn present_fault(value: Option<TextSet>, field: Seq<char>) -> Option<SchemaFault> {
    match value {
        Some(set) => nonempty_fault(set@, field),
        None => Some(SchemaFault::MissingField(field)),
    }
}

pub open spec fn producer_fault(producer: Producer) -> Option<SchemaFault> {
    first_fault(
        id_fault(producer.producer_id@, "producer_id"@),
        id_fault(producer.stream_id@, "stream_id"@),
    )
}

pub open spec fn logical_time_fault(time: Option<LogicalTime>, field: Seq<char>) -> Option<
    SchemaFault,
> {
    match time {
        Some(t) => id_fault(t.clock_id@, field),
        None => None,
    }
}

pub open spec fn interpretation_fault(interpretation: Interpretation) -> Option<SchemaFault> {
    match interpretation {
        Interpretation::DerivedConclusion { derivation_id, input_ids } => first_fault(
            id_fault(derivation_id@, "derivation_id"@),
            first_fault(
                nonempty_fault(input_ids@, "input_ids"@),
                ids_fault(input_ids@, "input_ids"@),
            ),
        ),
        Interpretation::Correlation { related_ids } => if related_ids@.len() < 2 {
            Some(SchemaFault::TooFewRelatedRecords)
        } else {
            ids_fault(related_ids@, "related_ids"@)
        },
        Interpretation::Assumption { statement } => text_fault(statement@, "statement"@),
        Interpretation::ObservedFact => None,
    }
}

pub open spec fn integrity_fault(integrity: Integrity) -> Option<SchemaFault> {
    if integrity.algorithm@ == "sha256"@ && is_lower_hex_digest(integrity.digest@) {
        None
    } else {
        Some(SchemaFault::InvalidIntegrity)
    }
}

pub open spec fn payload_ref_fault(payload_ref: Option<String>) -> Option<SchemaFault> {
    match payload_ref {
        Some(r) => text_fault(r@, "payload_ref"@),
        None => None,
    }
}

/// The outcome of validating an observation: its first failed rule, if any.
pub open spec fn observation_fault(o: Observation) -> Option<SchemaFault> {
    first_some(
        seq![
            version_fault(o.api_version@, OBSERVATION_VERSION@),
            id_fault(o.observation_id@, "observation_id"@),
            producer_fault(o.producer),
            logical_time_fault(o.logical_time, "logical_time.clock_id"@),
            if o.epistemic_class != class_of(o.interpretation) {
                Some(SchemaFault::MixedEpistemicClass)
            } else {
                None
            },
            interpretation_fault(o.interpretation),
            ids_fault(o.relations.parents@, "relations.parents"@),
            ids_fault(o.relations.links@, "relations.links"@),
            ids_fault(o.relations.correlations@, "relations.correlations"@),
            payload_ref_fault(o.payload_ref),
            integrity_fault(o.integrity),
            classification_fault(o.classification@),
            text_fault(o.origin.source_type@, "origin.source_type"@),
            id_fault(o.origin.source_id@, "origin.source_id"@),
            text_fault(o.origin.schema@, "origin.schema"@),
        ],
    )
}

/// A failed rule makes the whole check fail.
pub proof fn lemma_first_some_found<T>(faults: Seq<Option<T>>, i: int)
    requires
        0 <= i < faults.len(),
        faults[i] is Some,
    ensures
        first_some(faults) is Some,
    decreases i,
{
    if faults[0] is None {
        lemma_first_some_found(faults.drop_first(), i - 1);
    }
}

/// The outcome of checks made in order is the outcome of one of them.
pub proof fn lemma_first_some_from<T>(faults: Seq<Option<T>>)
    ensures
        first_some(faults) is Some ==> exists|i: int| 0 <= i < faults.len() && #[trigger] faults[i] == first_some(faults),
    decreases faults.len(),
{
    if faults.len() > 0 && faults[0] is None {
        let rest = faults.drop_first();
        lemma_first_some_from(rest);
        if first_some(rest) is Some {
            let i = choose|i: int| 0 <= i < rest.len() && #[trigger] rest[i] == first_some(rest);
            assert(faults[i + 1] == rest[i]);
        }
    }
}

/// A derived conclusion must name the records it was derived from: an observation
/// that derives a conclusion from no input is never valid, and when its version,
/// id, producer, logical time, class and derivation id are in order it is refused
/// as `MissingField("input_ids")`.
pub proof fn lemma_derived_conclusion_needs_inputs(o: Observation, derivation_id: String, input_ids: TextSet)
    requires
        o.interpretation == (Interpretation::DerivedConclusion { derivation_id, input_ids }),
        input_ids@.len() == 0,
    ensures
        observation_fault(o) is Some,
        o.api_version@ == OBSERVATION_VERSION@ && is_identifier(o.observation_id@) && producer_fault(o.producer) is None
            && logical_time_fault(o.logical_time, "logical_time.clock_id"@) is None && o.epistemic_class
            == EpistemicClass::DerivedConclusion && is_identifier(derivation_id@) ==> observation_fault(o) == Some(
            SchemaFault::MissingField("input_ids"@),
        ),
{
    let checks = seq![
        version_fault(o.api_version@, OBSERVATION_VERSION@),
        id_fault(o.observation_id@, "observation_id"@),
        producer_fault(o.producer),
        logical_time_fault(o.logical_time, "logical_time.clock_id"@),
        if o.epistemic_class != class_of(o.interpretation) {
            Some(SchemaFault::MixedEpistemicClass)
        } else {
            None
        },
        interpretation_fault(o.interpretation),
        ids_fault(o.relations.parents@, "relations.parents"@),
        ids_fault(o.relations.links@, "relations.links"@),
        ids_fault(o.relations.correlations@, "relations.correlations"@),
        payload_ref_fault(o.payload_ref),
        integrity_fault(o.integrity),
        classification_fault(o.classification@),
        text_fault(o.origin.source_type@, "origin.source_type"@),
        id_fault(o.origin.source_id@, "origin.source_id"@),
        text_fault(o.origin.schema@, "origin.schema"@),
    ];
    assert(observation_fault(o) == first_some(checks));
    assert(checks[5] is Some);
    lemma_first_some_found(checks, 5);
    if o.api_version@ == OBSERVATION_VERSION@ && is_identifier(o.observation_id@) && producer_fault(o.producer) is None
        && logical_time_fault(o.logical_time, "logical_time.clock_id"@) is None && o.epistemic_class
        == EpistemicClass::DerivedConclusion && is_identifier(derivation_id@) {
        assert forall|k: int| 0 <= k < 5 implies (#[trigger] checks[k]) is None by {}
        lemma_first_some_skip(checks, 5);
        assert(checks.skip(5)[0] == checks[5]);
    }
}

/// The operation-specific rules of a correction.
pub open spec fn operation_fault(c: Correction) -> Option<SchemaFault> {
    match c.operation {
        CorrectionOperation::Retraction => first_fault(
            absent_fault(c.replacement_ids, "replacement_ids"@),
            absent_fault(c.qualification, "qualification"@),
        ),
        CorrectionOperation::Replacement => first_fault(
            present_fault(c.replacement_ids, "replacement_ids"@),
            first_fault(
                ids_fault(c.replacement_ids->0@, "replacement_ids"@),
                absent_fault(c.qualification, "qualification"@),
            ),
        ),
        CorrectionOperation::Qualification => first_fault(
            absent_fault(c.replacement_ids, "replacement_ids"@),
            match c.qualification {
                Some(q) => text_fault(q@, "qualification"@),
                None => Some(SchemaFault::MissingField("qualification"@)),
            },
        ),
        CorrectionOperation::Deduplication => first_fault(
            present_fault(c.replacement_ids, "replacement_ids"@),
            if c.replacement_ids->0@.len() != 1 {
                Some(SchemaFault::DeduplicationCanonicalCount)
            } else {
                first_fault(
                    ids_fault(c.replacement_ids->0@, "replacement_ids"@),
                    absent_fault(c.qualification, "qualification"@),
                )
            },
        ),
    }
}

/// The outcome of validating a correction: its first failed rule, if any.
pub open spec fn correction_fault(c: Correction) -> Option<SchemaFault> {
    first_some(
        seq![
            version_fault(c.api_version@, CORRECTION_VERSION@),
            id_fault(c.correction_id@, "correction_id"@),
            producer_fault(c.producer),
            logical_time_fault(c.logical_time, "logical_time.clock_id"@),
            nonempty_fault(c.targets@, "targets"@),
            ids_fault(c.targets@, "targets"@),
            text_fault(c.reason@, "reason"@),
            ids_fault(c.provenance@, "provenance"@),
            classification_fault(c.classification@),
            operation_fault(c),
        ],
    )
}

pub open spec fn gap_fault(gap: SequenceGap) -> Option<SchemaFault> {
    if gap.start > gap.end {
        Some(SchemaFault::InvalidSequenceGap { start: gap.start, end: gap.end })
    } else {
        text_fault(gap.reason@, "gap.reason"@)
    }
}

pub open spec fn gaps_fault(gaps: Seq<SequenceGap>) -> Option<SchemaFault> {
    first_some(gaps.map_values(|g: SequenceGap| gap_fault(g)))
}

/// A rate is in `(0, 1]` exactly when its binary64 pattern is in `[1, bits(1.0)]`:
/// positive finite numbers order like their bit patterns, and negative numbers,
/// zeros above the sign, infinities and NaNs fall outside.
pub open spec fn rate_in_unit_interval(bits: u64) -> bool {
    1 <= bits <= 0x3FF0_0000_0000_0000
}

pub open spec fn sampling_fault(sampling: Sampling) -> Option<SchemaFault> {
    match (sampling.mode, sampling.rate_bits) {
        (SamplingMode::Sampled, Some(bits)) => if rate_in_unit_interval(bits) {
            None
        } else {
            Some(SchemaFault::InvalidSampling)
        },
        (SamplingMode::Sampled, None) => Some(SchemaFault::InvalidSampling),
        (_, None) => None,
        (_, Some(_)) => Some(SchemaFault::InvalidSampling),
    }
}

/// The outcome of validating a frontier: its first failed rule, if any.
pub open spec fn frontier_fault(f: Frontier) -> Option<SchemaFault> {
    first_some(
        seq![
            version_fault(f.api_version@, FRONTIER_VERSION@),
            id_fault(f.frontier_id@, "frontier_id"@),
            producer_fault(f.producer),
            logical_time_fault(f.logical_time_through, "logical_time_through.clock_id"@),
            gaps_fault(f.known_gaps@),
            sampling_fault(f.sampling),
            classification_fault(f.classification@),
        ],
    )
}

pub open spec fn provenance_item_fault(item: ProvenanceItem) -> Option<SchemaFault> {
    first_fault(
        id_fault(item.record_id@, "provenance.record_id"@),
        text_fault(item.role@, "provenance.role"@),
    )
}

pub open spec fn frontier_reference_fault(reference: FrontierReference) -> Option<SchemaFault> {
    first_fault(
        id_fault(reference.frontier_id@, "frontiers.frontier_id"@),
        producer_fault(reference.producer),
    )
}

pub open spec fn assumption_fault(assumption: AnswerAssumption) -> Option<SchemaFault> {
    first_fault(
        id_fault(assumption.assumption_id@, "assumptions.assumption_id"@),
        text_fault(assumption.statement@, "assumptions.statement"@),
    )
}

pub open spec fn answer_conflict_fault(conflict: AnswerConflict) -> Option<SchemaFault> {
    first_fault(
        id_fault(conflict.conflict_id@, "conflicts.conflict_id"@),
        if conflict.record_ids@.len() < 2 {
            Some(SchemaFault::TooFewConflictRecords)
        } else {
            first_fault(
                ids_fault(conflict.record_ids@, "conflicts.record_ids"@),
                text_fault(conflict.description@, "conflicts.description"@),
            )
        },
    )
}

/// The outcome of validating an answer: its first failed rule, if any.
pub open spec fn answer_fault(a: Answer) -> Option<SchemaFault> {
    first_some(
        seq![
            version_fault(a.api_version@, ANSWER_VERSION@),
            id_fault(a.answer_id@, "answer_id"@),
            first_some(a.provenance@.map_values(|p: ProvenanceItem| provenance_item_fault(p))),
            ids_fault(a.source_cutoff.segment_ids@, "source_cutoff.segment_ids"@),
            first_some(
                a.frontiers@.map_values(|r: FrontierReference| frontier_reference_fault(r)),
            ),
            first_some(a.missing_sources@.map_values(|p: Producer| producer_fault(p))),
            first_some(a.coverage.requested_sources@.map_values(|p: Producer| producer_fault(p))),
            first_some(a.coverage.covered_sources@.map_values(|p: Producer| producer_fault(p))),
            first_some(a.assumptions@.map_values(|x: AnswerAssumption| assumption_fault(x))),
            first_some(a.conflicts@.map_values(|x: AnswerConflict| answer_conflict_fault(x))),
            text_fault(a.derivation.name@, "derivation.name"@),
            text_fault(a.derivation.version@, "derivation.version"@),
            ids_fault(a.derivation.input_ids@, "derivation.input_ids"@),
        ],
    )
}

/// The outcome of validating any evidence record.
#[verifier::opaque]
pub open spec fn record_fault(record: EvidenceRecord) -> Option<SchemaFault> {
    match record {
        EvidenceRecord::Observation(o) => observation_fault(*o),
        EvidenceRecord::Correction(c) => correction_fault(c),
        EvidenceRecord::Frontier(f) => frontier_fault(f),
    }
}

/// The id that identifies a record of any kind.
pub open spec fn record_id_of(record: EvidenceRecord) -> Seq<char> {
    match record {
        EvidenceRecord::Observation(o) => o.observation_id@,
        EvidenceRecord::Correction(c) => c.correction_id@,
        EvidenceRecord::Frontier(f) => f.frontier_id@,
    }
}

/// The durable admission time of a record of any kind.
pub open spec fn recorded_at_of(record: EvidenceRecord) -> Seq<char> {
    match record {
        EvidenceRecord::Observation(o) => o.recorded_at@,
        EvidenceRecord::Correction(c) => c.recorded_at@,
        EvidenceRecord::Frontier(f) => f.as_of_recorded_at@,
    }
}

/// The classification label of a record of any kind.
pub open spec fn classification_of(record: EvidenceRecord) -> Seq<char> {
    match record {
        EvidenceRecord::Observation(o) => o.classification@,
        EvidenceRecord::Correction(c) => c.classification@,
        EvidenceRecord::Frontier(f) => f.classification@,
    }
}

fn require_version(actual: &str, expected: &'static str) -> (result: Result<(), SchemaError>)
    ensures
        fault_of(result) == version_fault(actual@, expected@),
{
    if text_equal(actual, expected) {
        Ok(())
    } else {
        Err(SchemaError::UnsupportedVersion { actual: actual.to_owned(), expected })
    }
}

fn require_id(value: &str, field: &'static str) -> (result: Result<(), SchemaError>)
    ensures
        fault_of(result) == id_fault(value@, field@),
{
    if check_identifier(value) {
        Ok(())
    } else {
        Err(SchemaError::InvalidIdentifier(field))
    }
}

fn require_ids(values: &TextSet, field: &'static str) -> (result: Result<(), SchemaError>)
    ensures
        fault_of(result) == ids_fault(values@, field@),
{
    let items = values.items();
    let mut i: usize = 0;
    while i < items.len()
        invariant
            0 <= i <= items@.len(),
            crate::text::texts(items@) == values@,
            forall|k: int| 0 <= k < i ==> is_identifier(#[trigger] values@[k]),
        decreases items@.len() - i,
    {
        if !check_identifier(items[i].as_str()) {
            assert(values@[i as int] == items@[i as int]@);
            return Err(SchemaError::InvalidIdentifier(field));
        }
        i = i + 1;
    }
    Ok(())
}

fn require_producer(producer: &Producer) -> (result: Result<(), SchemaError>)
    ensures
        fault_of(result) == producer_fault(*producer),
{
    match require_id(producer.producer_id.as_str(), "producer_id") {
        Err(e) => return Err(e),
        Ok(()) => {},
    }
    require_id(producer.stream_id.as_str(), "stream_id")
}

fn require_logical_time(time: &Option<LogicalTime>, field: &'static str) -> (result: Result<
    (),
    SchemaError,
>)
    ensures
        fault_of(result) == logical_time_fault(*time, field@),
{
    match time {
        Some(t) => require_id(t.clock_id.as_str(), field),
        None => Ok(()),
    }
}

fn require_non_empty_string(value: &str, field: &'static str) -> (result: Result<(), SchemaError>)
    ensures
        fault_of(result) == text_fault(value@, field@),
{
    if value.is_empty() {
        Err(SchemaError::EmptyField(field))
    } else {
        Ok(())
    }
}

fn require_classification(value: &str) -> (result: Result<(), SchemaError>)
    ensures
        fault_of(result) == classification_fault(value@),
{
    if check_label(value) {
        Ok(())
    } else {
        Err(SchemaError::InvalidClassification)
    }
}

fn require_non_empty(values: &TextSet, field: &'static str) -> (result: Result<(), SchemaError>)
    ensures
        fault_of(result) == nonempty_fault(values@, field@),
{
    if values.is_empty() {
        Err(SchemaError::MissingField(field))
    } else {
        Ok(())
    }
}

fn require_absent_set(value: &Option<TextSet>, field: &'static str) -> (result: Result<
    (),
    SchemaError,
>)
    ensures
        fault_of(result) == absent_fault(*value, field@),
{
    if value.is_some() {
        Err(SchemaError::UnexpectedField(field))
    } else {
        Ok(())
    }
}

fn require_absent_text(value: &Option<String>, field: &'static str) -> (result: Result<
    (),
    SchemaError,
>)
    ensures
        fault_of(result) == absent_fault(*value, field@),
{
    if value.is_some() {
        Err(SchemaError::UnexpectedField(field))
    } else {
        Ok(())
    }
}

fn require_present_non_empty<'a>(value: &'a Option<TextSet>, field: &'static str) -> (result:
    Result<&'a TextSet, SchemaError>)
    ensures
        match result {
            Ok(set) => present_fault(*value, field@) is None && *value == Some(*set),
            Err(e) => present_fault(*value, field@) == Some(e@),
        },
{
    match value {
        Some(set) => {
            if set.is_empty() {
                Err(SchemaError::MissingField(field))
            } else {
                Ok(set)
            }
        },
        None => Err(SchemaError::MissingField(field)),
    }
}

fn require_integrity(integrity: &Integrity) -> (result: Result<(), SchemaError>)
    ensures
        fault_of(result) == integrity_fault(*integrity),
{
    if text_equal(integrity.algorithm.as_str(), "sha256") && check_lower_hex_digest(
        integrity.digest.as_str(),
    ) {
        Ok(())
    } else {
        Err(SchemaError::InvalidIntegrity)
    }
}

fn require_interpretation(interpretation: &Interpretation) -> (result: Result<(), SchemaError>)
    ensures
        fault_of(result) == interpretation_fault(*interpretation),
{
    match interpretation {
        Interpretation::DerivedConclusion { derivation_id, input_ids } => {
            match require_id(derivation_id.as_str(), "derivation_id") {
                Err(e) => return Err(e),
                Ok(()) => {},
            }
            match require_non_empty(input_ids, "input_ids") {
                Err(e) => return Err(e),
                Ok(()) => {},
            }
            require_ids(input_ids, "input_ids")
        },
        Interpretation::Correlation { related_ids } => {
            if related_ids.len() < 2 {
                return Err(SchemaError::TooFewRelatedRecords);
            }
            require_ids(related_ids, "related_ids")
        },
        Interpretation::Assumption { statement } => require_non_empty_string(
            statement.as_str(),
            "statement",
        ),
        Interpretation::ObservedFact => Ok(()),
    }
}

impl Observation {
    /// Validate every normative rule; the first rule broken, in a fixed order, is
    /// reported.
    pub fn validate(&self) -> (result: Result<(), SchemaError>)
        ensures
            fault_of(result) == observation_fault(*self),
    {
        let ghost o = *self;
        let ghost checks = seq![
            version_fault(o.api_version@, OBSERVATION_VERSION@),
            id_fault(o.observation_id@, "observation_id"@),
            producer_fault(o.producer),
            logical_time_fault(o.logical_time, "logical_time.clock_id"@),
            if o.epistemic_class != class_of(o.interpretation) {
                Some(SchemaFault::MixedEpistemicClass)
            } else {
                None
            },
            interpretation_fault(o.interpretation),
            ids_fault(o.relations.parents@, "relations.parents"@),
            ids_fault(o.relations.links@, "relations.links"@),
            ids_fault(o.relations.correlations@, "relations.correlations"@),
            payload_ref_fault(o.payload_ref),
            integrity_fault(o.integrity),
            classification_fault(o.classification@),
            text_fault(o.origin.source_type@, "origin.source_type"@),
            id_fault(o.origin.source_id@, "origin.source_id"@),
            text_fault(o.origin.schema@, "origin.schema"@),
        ];
        assert(observation_fault(o) == first_some(checks));
        let r = require_version(self.api_version.as_str(), OBSERVATION_VERSION);
        if r.is_err() {
            proof { lemma_first_some_skip(checks, 0); }
            return r;
        }
        let r = require_id(self.observation_id.as_str(), "observation_id");
        if r.is_err() {
            proof { lemma_first_some_skip(checks, 1); }
            return r;
        }
        let r = require_producer(&self.producer);
        if r.is_err() {
            proof { lemma_first_some_skip(checks, 2); }
            return r;
        }
        let r = require_logical_time(&self.logical_time, "logical_time.clock_id");
        if r.is_err() {
            proof { lemma_first_some_skip(checks, 3); }
            return r;
        }
        if self.epistemic_class != self.interpretation.epistemic_class() {
            proof { lemma_first_some_skip(checks, 4); }
            return Err(SchemaError::MixedEpistemicClass);
        }
        let r = require_interpretation(&self.interpretation);
        if r.is_err() {
            proof { lemma_first_some_skip(checks, 5); }
            return r;
        }
        let r = require_ids(&self.relations.parents, "relations.parents");
        if r.is_err() {
            proof { lemma_first_some_skip(checks, 6); }
            return r;
        }
        let r = require_ids(&self.relations.links, "relations.links");
        if r.is_err() {
            proof { lemma_first_some_skip(checks, 7); }
            return r;
        }
        let r = require_ids(&self.relations.correlations, "relations.correlations");
        if r.is_err() {
            proof { lemma_first_some_skip(checks, 8); }
            return r;
        }
        if let Some(payload_ref) = &self.payload_ref {
            let r = require_non_empty_string(payload_ref.as_str(), "payload_ref");
            if r.is_err() {
                proof { lemma_first_some_skip(checks, 9); }
                return r;
            }
        }
        let r = require_integrity(&self.integrity);
        if r.is_err() {
            proof { lemma_first_some_skip(checks, 10); }
            return r;
        }
        let r = require_classification(self.classification.as_str());
        if r.is_err() {
            proof { lemma_first_some_skip(checks, 11); }
            return r;
        }
        let r = require_non_empty_string(self.origin.source_type.as_str(), "origin.source_type");
        if r.is_err() {
            proof { lemma_first_some_skip(checks, 12); }
            return r;
        }
        let r = require_id(self.origin.source_id.as_str(), "origin.source_id");
        if r.is_err() {
            proof { lemma_first_some_skip(checks, 13); }
            return r;
        }
        let r = require_non_empty_string(self.origin.schema.as_str(), "origin.schema");
        proof { lemma_first_some_skip(checks, 14); }
        if r.is_err() {
            return r;
        }
        proof { lemma_first_some_skip(checks, 15); }
        Ok(())
    }
}

impl Observation {
    /// The ordering evidence this observation contributes.
    pub fn ordering_point(&self) -> (point: OrderingPoint)
        ensures
            point@ == observation_point(*self),
    {
        OrderingPoint {
            record_id: self.observation_id.clone(),
            producer_id: self.producer.producer_id.clone(),
            stream_id: self.producer.stream_id.clone(),
            producer_sequence: self.producer_sequence,
            logical_time: clone_logical_time(&self.logical_time),
            parents: self.relations.parents.clone(),
            observed_at: clone_timestamp(&self.observed_at),
            observed_by_at: self.observed_by_at.clone(),
            recorded_at: self.recorded_at.clone(),
        }
    }
}

/// The ordering evidence of an observation: its id, producer stream, positions and
/// explicit parents.
pub open spec fn observation_point(o: Observation) -> PointView {
    PointView {
        record_id: o.observation_id@,
        producer_id: o.producer.producer_id@,
        stream_id: o.producer.stream_id@,
        producer_sequence: o.producer_sequence,
        logical_time: clock_view(o.logical_time),
        parents: o.relations.parents@,
    }
}

/// The ordering evidence of a correction: its id, producer stream and positions; a
/// correction declares no parents.
pub open spec fn correction_point(c: Correction) -> PointView {
    PointView {
        record_id: c.correction_id@,
        producer_id: c.producer.producer_id@,
        stream_id: c.producer.stream_id@,
        producer_sequence: c.producer_sequence,
        logical_time: clock_view(c.logical_time),
        parents: Seq::empty(),
    }
}

fn clone_logical_time(time: &Option<LogicalTime>) -> (copy: Option<LogicalTime>)
    ensures
        copy == *time,
{
    match time {
        Some(t) => Some(LogicalTime { clock_id: t.clock_id.clone(), counter: t.counter }),
        None => None,
    }
}

fn clone_timestamp(time: &Option<Timestamp>) -> (copy: Option<Timestamp>)
    ensures
        match (copy, *time) {
            (Some(a), Some(b)) => a@ == b@,
            (None, None) => true,
            _ => false,
        },
{
    match time {
        Some(t) => Some(t.clone()),
        None => None,
    }
}

impl Correction {
    /// Validate every normative rule; the first rule broken, in a fixed order, is
    /// reported.
    pub fn validate(&self) -> (result: Result<(), SchemaError>)
        ensures
            fault_of(result) == correction_fault(*self),
    {
        let ghost c = *self;
        let ghost checks = seq![
            version_fault(c.api_version@, CORRECTION_VERSION@),
            id_fault(c.correction_id@, "correction_id"@),
            producer_fault(c.producer),
            logical_time_fault(c.logical_time, "logical_time.clock_id"@),
            nonempty_fault(c.targets@, "targets"@),
            ids_fault(c.targets@, "targets"@),
            text_fault(c.reason@, "reason"@),
            ids_fault(c.provenance@, "provenance"@),
            classification_fault(c.classification@),
            operation_fault(c),
        ];
        assert(correction_fault(c) == first_some(checks));
        let r = require_version(self.api_version.as_str(), CORRECTION_VERSION);
        if r.is_err() {
            proof { lemma_first_some_skip(checks, 0); }
            return r;
        }
        let r = require_id(self.correction_id.as_str(), "correction_id");
        if r.is_err() {
            proof { lemma_first_some_skip(checks, 1); }
            return r;
        }
        let r = require_producer(&self.producer);
        if r.is_err() {
            proof { lemma_first_some_skip(checks, 2); }
            return r;
        }
        let r = require_logical_time(&self.logical_time, "logical_time.clock_id");
        if r.is_err() {
            proof { lemma_first_some_skip(checks, 3); }
            return r;
        }
        let r = require_non_empty(&self.targets, "targets");
        if r.is_err() {
            proof { lemma_first_some_skip(checks, 4); }
            return r;
        }
        let r = require_ids(&self.targets, "targets");
        if r.is_err() {
            proof { lemma_first_some_skip(checks, 5); }
            return r;
        }
        let r = require_non_empty_string(self.reason.as_str(), "reason");
        if r.is_err() {
            proof { lemma_first_some_skip(checks, 6); }
            return r;
        }
        let r = require_ids(&self.provenance, "provenance");
        if r.is_err() {
            proof { lemma_first_some_skip(checks, 7); }
            return r;
        }
        let r = require_classification(self.classification.as_str());
        if r.is_err() {
            proof { lemma_first_some_skip(checks, 8); }
            return r;
        }
        let r = self.check_operation();
        proof {
            lemma_first_some_skip(checks, 9);
            if r.is_ok() {
                lemma_first_some_skip(checks, 10);
            }
        }
        r
    }

    fn check_operation(&self) -> (result: Result<(), SchemaError>)
        ensures
            fault_of(result) == operation_fault(*self),
    {
        match self.operation {
            CorrectionOperation::Retraction => {
                match require_absent_set(&self.replacement_ids, "replacement_ids") {
                    Err(e) => return Err(e),
                    Ok(()) => {},
                }
                require_absent_text(&self.qualification, "qualification")
            },
            CorrectionOperation::Replacement => {
                let replacements = match require_present_non_empty(
                    &self.replacement_ids,
                    "replacement_ids",
                ) {
                    Err(e) => return Err(e),
                    Ok(set) => set,
                };
                match require_ids(replacements, "replacement_ids") {
                    Err(e) => return Err(e),
                    Ok(()) => {},
                }
                require_absent_text(&self.qualification, "qualification")
            },
            CorrectionOperation::Qualification => {
                match require_absent_set(&self.replacement_ids, "replacement_ids") {
                    Err(e) => return Err(e),
                    Ok(()) => {},
                }
                match &self.qualification {
                    Some(q) => require_non_empty_string(q.as_str(), "qualification"),
                    None => Err(SchemaError::MissingField("qualification")),
                }
            },
            CorrectionOperation::Deduplication => {
                let replacements = match require_present_non_empty(
                    &self.replacement_ids,
                    "replacement_ids",
                ) {
                    Err(e) => return Err(e),
                    Ok(set) => set,
                };
                if replacements.len() != 1 {
                    return Err(SchemaError::DeduplicationCanonicalCount);
                }
                match require_ids(replacements, "replacement_ids") {
                    Err(e) => return Err(e),
                    Ok(()) => {},
                }
                require_absent_text(&self.qualification, "qualification")
            },
        }
    }

    /// The ordering evidence this correction contributes.
    pub fn ordering_point(&self) -> (point: OrderingPoint)
        ensures
            point@ == correction_point(*self),
    {
        OrderingPoint {
            record_id: self.correction_id.clone(),
            producer_id: self.producer.producer_id.clone(),
            stream_id: self.producer.stream_id.clone(),
            producer_sequence: self.producer_sequence,
            logical_time: clone_logical_time(&self.logical_time),
            parents: TextSet::new(),
            observed_at: None,
            observed_by_at: self.observed_by_at.clone(),
            recorded_at: self.recorded_at.clone(),
        }
    }
}

fn check_gaps(gaps: &Vec<SequenceGap>) -> (result: Result<(), SchemaError>)
    ensures
        fault_of(result) == gaps_fault(gaps@),
{
    let ghost faults = gaps@.map_values(|g: SequenceGap| gap_fault(g));
    let mut i: usize = 0;
    while i < gaps.len()
        invariant
            0 <= i <= gaps@.len(),
            faults == gaps@.map_values(|g: SequenceGap| gap_fault(g)),
            forall|k: int| 0 <= k < i ==> (#[trigger] faults[k]) is None,
        decreases gaps@.len() - i,
    {
        let gap = &gaps[i];
        assert(faults[i as int] == gap_fault(gaps@[i as int]));
        if gap.start > gap.end {
            proof {
                lemma_first_some_skip(faults, i as int);
            }
            return Err(SchemaError::InvalidSequenceGap { start: gap.start, end: gap.end });
        }
        if gap.reason.as_str().is_empty() {
            proof {
                lemma_first_some_skip(faults, i as int);
            }
            return Err(SchemaError::EmptyField("gap.reason"));
        }
        i = i + 1;
    }
    proof {
        lemma_first_some_skip(faults, i as int);
    }
    Ok(())
}

fn check_sampling(sampling: &Sampling) -> (result: Result<(), SchemaError>)
    ensures
        fault_of(result) == sampling_fault(*sampling),
{
    match (sampling.mode, sampling.rate_bits) {
        (SamplingMode::Sampled, Some(bits)) => {
            if 1 <= bits && bits <= 0x3FF0_0000_0000_0000 {
                Ok(())
            } else {
                Err(SchemaError::InvalidSampling)
            }
        },
        (SamplingMode::Sampled, None) => Err(SchemaError::InvalidSampling),
        (_, None) => Ok(()),
        (_, Some(_)) => Err(SchemaError::InvalidSampling),
    }
}

impl Frontier {
    /// Validate every normative rule; the first rule broken, in a fixed order, is
    /// reported.
    pub fn validate(&self) -> (result: Result<(), SchemaError>)
        ensures
            fault_of(result) == frontier_fault(*self),
    {
        let ghost f = *self;
        let ghost checks = seq![
            version_fault(f.api_version@, FRONTIER_VERSION@),
            id_fault(f.frontier_id@, "frontier_id"@),
            producer_fault(f.producer),
            logical_time_fault(f.logical_time_through, "logical_time_through.clock_id"@),
            gaps_fault(f.known_gaps@),
            sampling_fault(f.sampling),
            classification_fault(f.classification@),
        ];
        assert(frontier_fault(f) == first_some(checks));
        let r = require_version(self.api_version.as_str(), FRONTIER_VERSION);
        if r.is_err() {
            proof { lemma_first_some_skip(checks, 0); }
            return r;
        }
        let r = require_id(self.frontier_id.as_str(), "frontier_id");
        if r.is_err() {
            proof { lemma_first_some_skip(checks, 1); }
            return r;
        }
        let r = require_producer(&self.producer);
        if r.is_err() {
            proof { lemma_first_some_skip(checks, 2); }
            return r;
        }
        let r = require_logical_time(&self.logical_time_through, "logical_time_through.clock_id");
        if r.is_err() {
            proof { lemma_first_some_skip(checks, 3); }
            return r;
        }
        let r = check_gaps(&self.known_gaps);
        if r.is_err() {
            proof { lemma_first_some_skip(checks, 4); }
            return r;
        }
        let r = check_sampling(&self.sampling);
        if r.is_err() {
            proof { lemma_first_some_skip(checks, 5); }
            return r;
        }
        let r = require_classification(self.classification.as_str());
        proof {
            lemma_first_some_skip(checks, 6);
            if r.is_ok() {
                lemma_first_some_skip(checks, 7);
            }
        }
        r
    }
}

fn check_producers(producers: &Vec<Producer>) -> (result: Result<(), SchemaError>)
    ensures
        fault_of(result) == first_some(producers@.map_values(|p: Producer| producer_fault(p))),
{
    let ghost faults = producers@.map_values(|p: Producer| producer_fault(p));
    let mut i: usize = 0;
    while i < producers.len()
        invariant
            0 <= i <= producers@.len(),
            faults == producers@.map_values(|p: Producer| producer_fault(p)),
            forall|k: int| 0 <= k < i ==> (#[trigger] faults[k]) is None,
        decreases producers@.len() - i,
    {
        assert(faults[i as int] == producer_fault(producers@[i as int]));
        let r = require_producer(&producers[i]);
        if r.is_err() {
            proof {
                lemma_first_some_skip(faults, i as int);
            }
            return r;
        }
        i = i + 1;
    }
    proof {
        lemma_first_some_skip(faults, i as int);
    }
    Ok(())
}

fn check_provenance(items: &Vec<ProvenanceItem>) -> (result: Result<(), SchemaError>)
    ensures
        fault_of(result) == first_some(items@.map_values(|p: ProvenanceItem| provenance_item_fault(p))),
{
    let ghost faults = items@.map_values(|p: ProvenanceItem| provenance_item_fault(p));
    let mut i: usize = 0;
    while i < items.len()
        invariant
            0 <= i <= items@.len(),
            faults == items@.map_values(|p: ProvenanceItem| provenance_item_fault(p)),
            forall|k: int| 0 <= k < i ==> (#[trigger] faults[k]) is None,
        decreases items@.len() - i,
    {
        assert(faults[i as int] == provenance_item_fault(items@[i as int]));
        let r = require_id(items[i].record_id.as_str(), "provenance.record_id");
        if r.is_err() {
            proof {
                lemma_first_some_skip(faults, i as int);
            }
            return r;
        }
        let r = require_non_empty_string(items[i].role.as_str(), "provenance.role");
        if r.is_err() {
            proof {
                lemma_first_some_skip(faults, i as int);
            }
            return r;
        }
        i = i + 1;
    }
    proof {
        lemma_first_some_skip(faults, i as int);
    }
    Ok(())
}

fn check_frontier_references(items: &Vec<FrontierReference>) -> (result: Result<(), SchemaError>)
    ensures
        fault_of(result) == first_some(
            items@.map_values(|r: FrontierReference| frontier_reference_fault(r)),
        ),
{
    let ghost faults = items@.map_values(|r: FrontierReference| frontier_reference_fault(r));
    let mut i: usize = 0;
    while i < items.len()
        invariant
            0 <= i <= items@.len(),
            faults == items@.map_values(|r: FrontierReference| frontier_reference_fault(r)),
            forall|k: int| 0 <= k < i ==> (#[trigger] faults[k]) is None,
        decreases items@.len() - i,
    {
        assert(faults[i as int] == frontier_reference_fault(items@[i as int]));
        let r = require_id(items[i].frontier_id.as_str(), "frontiers.frontier_id");
        if r.is_err() {
            proof {
                lemma_first_some_skip(faults, i as int);
            }
            return r;
        }
        let r = require_producer(&items[i].producer);
        if r.is_err() {
            proof {
                lemma_first_some_skip(faults, i as int);
            }
            return r;
        }
        i = i + 1;
    }
    proof {
        lemma_first_some_skip(faults, i as int);
    }
    Ok(())
}

fn check_assumptions(items: &Vec<AnswerAssumption>) -> (result: Result<(), SchemaError>)
    ensures
        fault_of(result) == first_some(items@.map_values(|x: AnswerAssumption| assumption_fault(x))),
{
    let ghost faults = items@.map_values(|x: AnswerAssumption| assumption_fault(x));
    let mut i: usize = 0;
    while i < items.len()
        invariant
            0 <= i <= items@.len(),
            faults == items@.map_values(|x: AnswerAssumption| assumption_fault(x)),
            forall|k: int| 0 <= k < i ==> (#[trigger] faults[k]) is None,
        decreases items@.len() - i,
    {
        assert(faults[i as int] == assumption_fault(items@[i as int]));
        let r = require_id(items[i].assumption_id.as_str(), "assumptions.assumption_id");
        if r.is_err() {
            proof {
                lemma_first_some_skip(faults, i as int);
            }
            return r;
        }
        let r = require_non_empty_string(items[i].statement.as_str(), "assumptions.statement");
        if r.is_err() {
            proof {
                lemma_first_some_skip(faults, i as int);
            }
            return r;
        }
        i = i + 1;
    }
    proof {
        lemma_first_some_skip(faults, i as int);
    }
    Ok(())
}

fn check_answer_conflicts(items: &Vec<AnswerConflict>) -> (result: Result<(), SchemaError>)
    ensures
        fault_of(result) == first_some(items@.map_values(|x: AnswerConflict| answer_conflict_fault(x))),
{
    let ghost faults = items@.map_values(|x: AnswerConflict| answer_conflict_fault(x));
    let mut i: usize = 0;
    while i < items.len()
        invariant
            0 <= i <= items@.len(),
            faults == items@.map_values(|x: AnswerConflict| answer_conflict_fault(x)),
            forall|k: int| 0 <= k < i ==> (#[trigger] faults[k]) is None,
        decreases items@.len() - i,
    {
        let item = &items[i];
        assert(faults[i as int] == answer_conflict_fault(items@[i as int]));
        let r = require_id(item.conflict_id.as_str(), "conflicts.conflict_id");
        if r.is_err() {
            proof {
                lemma_first_some_skip(faults, i as int);
            }
            return r;
        }
        if item.record_ids.len() < 2 {
            proof {
                lemma_first_some_skip(faults, i as int);
            }
            return Err(SchemaError::TooFewConflictRecords);
        }
        let r = require_ids(&item.record_ids, "conflicts.record_ids");
        if r.is_err() {
            proof {
                lemma_first_some_skip(faults, i as int);
            }
            return r;
        }
        let r = require_non_empty_string(item.description.as_str(), "conflicts.description");
        if r.is_err() {
            proof {
                lemma_first_some_skip(faults, i as int);
            }
            return r;
        }
        i = i + 1;
    }
    proof {
        lemma_first_some_skip(faults, i as int);
    }
    Ok(())
}

impl Answer {
    /// Validate every normative rule; the first rule broken, in a fixed order, is
    /// reported.
    #[verifier::rlimit(60)]
    #[verifier::spinoff_prover]
    pub fn validate(&self) -> (result: Result<(), SchemaError>)
        ensures
            fault_of(result) == answer_fault(*self),
    {
        let ghost a = *self;
        let ghost checks = seq![
            version_fault(a.api_version@, ANSWER_VERSION@),
            id_fault(a.answer_id@, "answer_id"@),
            first_some(a.provenance@.map_values(|p: ProvenanceItem| provenance_item_fault(p))),
            ids_fault(a.source_cutoff.segment_ids@, "source_cutoff.segment_ids"@),
            first_some(
                a.frontiers@.map_values(|r: FrontierReference| frontier_reference_fault(r)),
            ),
            first_some(a.missing_sources@.map_values(|p: Producer| producer_fault(p))),
            first_some(a.coverage.requested_sources@.map_values(|p: Producer| producer_fault(p))),
            first_some(a.coverage.covered_sources@.map_values(|p: Producer| producer_fault(p))),
            first_some(a.assumptions@.map_values(|x: AnswerAssumption| assumption_fault(x))),
            first_some(a.conflicts@.map_values(|x: AnswerConflict| answer_conflict_fault(x))),
            text_fault(a.derivation.name@, "derivation.name"@),
            text_fault(a.derivation.version@, "derivation.version"@),
            ids_fault(a.derivation.input_ids@, "derivation.input_ids"@),
        ];
        assert(answer_fault(a) == first_some(checks));
        let r = require_version(self.api_version.as_str(), ANSWER_VERSION);
        if r.is_err() {
            proof { lemma_first_some_skip(checks, 0); }
            return r;
        }
        let r = require_id(self.answer_id.as_str(), "answer_id");
        if r.is_err() {
            proof { lemma_first_some_skip(checks, 1); }
            return r;
        }
        let r = check_provenance(&self.provenance);
        if r.is_err() {
            proof { lemma_first_some_skip(checks, 2); }
            return r;
        }
        let r = require_ids(&self.source_cutoff.segment_ids, "source_cutoff.segment_ids");
        if r.is_err() {
            proof { lemma_first_some_skip(checks, 3); }
            return r;
        }
        let r = check_frontier_references(&self.frontiers);
        if r.is_err() {
            proof { lemma_first_some_skip(checks, 4); }
            return r;
        }
        let r = check_producers(&self.missing_sources);
        if r.is_err() {
            proof { lemma_first_some_skip(checks, 5); }
            return r;
        }
        let r = check_producers(&self.coverage.requested_sources);
        if r.is_err() {
            proof { lemma_first_some_skip(checks, 6); }
            return r;
        }
        let r = check_producers(&self.coverage.covered_sources);
        if r.is_err() {
            proof { lemma_first_some_skip(checks, 7); }
            return r;
        }
        let r = check_assumptions(&self.assumptions);
        if r.is_err() {
            proof { lemma_first_some_skip(checks, 8); }
            return r;
        }
        let r = check_answer_conflicts(&self.conflicts);
        if r.is_err() {
            proof { lemma_first_some_skip(checks, 9); }
            return r;
        }
        let r = require_non_empty_string(self.derivation.name.as_str(), "derivation.name");
        if r.is_err() {
            proof { lemma_first_some_skip(checks, 10); }
            return r;
        }
        let r = require_non_empty_string(self.derivation.version.as_str(), "derivation.version");
        if r.is_err() {
            proof { lemma_first_some_skip(checks, 11); }
            return r;
        }
        let r = require_ids(&self.derivation.input_ids, "derivation.input_ids");
        proof {
            lemma_first_some_skip(checks, 12);
            if r.is_ok() {
                lemma_first_some_skip(checks, 13);
            }
        }
        r
    }
}

impl EvidenceRecord {
    /// Wrap an observation.
    pub fn from_observation(record: Observation) -> (wrapped: EvidenceRecord)
        ensures
            wrapped == EvidenceRecord::Observation(Box::new(record)),
    {
        EvidenceRecord::Observation(Box::new(record))
    }

    /// The id that identifies the record.
    pub fn record_id(&self) -> (id: &str)
        ensures
            id@ == record_id_of(*self),
    {
        match self {
            EvidenceRecord::Observation(record) => record.observation_id.as_str(),
            EvidenceRecord::Correction(record) => record.correction_id.as_str(),
            EvidenceRecord::Frontier(record) => record.frontier_id.as_str(),
        }
    }

    /// The durable admission time of the record.
    pub fn recorded_at(&self) -> (at: &Timestamp)
        ensures
            at@ == recorded_at_of(*self),
    {
        match self {
            EvidenceRecord::Observation(record) => &record.recorded_at,
            EvidenceRecord::Correction(record) => &record.recorded_at,
            EvidenceRecord::Frontier(record) => &record.as_of_recorded_at,
        }
    }

    /// The classification label of the record.
    pub fn classification(&self) -> (label: &str)
        ensures
            label@ == classification_of(*self),
    {
        match self {
            EvidenceRecord::Observation(record) => record.classification.as_str(),
            EvidenceRecord::Correction(record) => record.classification.as_str(),
            EvidenceRecord::Frontier(record) => record.classification.as_str(),
        }
    }

    /// Validate the record under the rules of its kind.
    pub fn validate(&self) -> (result: Result<(), SchemaError>)
        ensures
            fault_of(result) == record_fault(*self),
    {
        proof {
            reveal(record_fault);
        }
        match self {
            EvidenceRecord::Observation(record) => record.validate(),
            EvidenceRecord::Correction(record) => record.validate(),
            EvidenceRecord::Frontier(record) => record.validate(),
        }
    }
}

/// What a valid correction guarantees about its operation-specific fields.
pub proof fn lemma_valid_correction(c: Correction)
    requires
        correction_fault(c) is None,
    ensures
        c.targets@.len() > 0,
        c.operation == CorrectionOperation::Replacement ==> c.replacement_ids is Some
            && c.replacement_ids->0@.len() > 0,
        c.operation == CorrectionOperation::Deduplication ==> c.replacement_ids is Some
            && c.replacement_ids->0@.len() == 1,
        c.operation == CorrectionOperation::Qualification ==> c.qualification is Some
            && c.replacement_ids is None,
        c.operation == CorrectionOperation::Retraction ==> c.replacement_ids is None
            && c.qualification is None,
{
    reveal_with_fuel(first_some, 11);
}

/// The human-readable text of a schema fault.
pub open spec fn schema_message_of(f: SchemaFault) -> Seq<char> {
    match f {
        SchemaFault::UnsupportedVersion { actual, expected } => "unsupported envelope version "@ + actual
            + "; expected "@ + expected,
        SchemaFault::EmptyField(field) => "empty required field: "@ + field,
        SchemaFault::InvalidIdentifier(field) => "invalid identifier: "@ + field,
        SchemaFault::InvalidClassification => "classification must be a lowercase policy label"@,
        SchemaFault::MissingField(field) => "missing required field: "@ + field,
        SchemaFault::UnexpectedField(field) => "field is not permitted for this variant: "@ + field,
        SchemaFault::MixedEpistemicClass => "epistemic_class and interpretation.kind do not match"@,
        SchemaFault::TooFewRelatedRecords => "correlation requires at least two related records"@,
        SchemaFault::TooFewConflictRecords => "answer conflict requires at least two record ids"@,
        SchemaFault::InvalidIntegrity => "integrity must be lowercase SHA-256"@,
        SchemaFault::InvalidSequenceGap { start, end } => "invalid sequence gap "@ + decimal_text(
            start as nat,
        ) + ".."@ + decimal_text(end as nat),
        SchemaFault::InvalidSampling => "sampled frontiers require a rate in (0, 1], other modes require null"@,
        SchemaFault::DeduplicationCanonicalCount => "deduplication requires exactly one canonical replacement"@,
    }
}

impl SchemaError {
    /// The human-readable text of the error.
    pub fn message(&self) -> (text: String)
        ensures
            text@ == schema_message_of(self@),
    {
        match self {
            SchemaError::UnsupportedVersion { actual, expected } => {
                let mut text = "unsupported envelope version ".to_owned();
                text.append(actual.as_str());
                text.append("; expected ");
                text.append(expected);
                text
            },
            SchemaError::EmptyField(field) => {
                let mut text = "empty required field: ".to_owned();
                text.append(field);
                text
            },
            SchemaError::InvalidIdentifier(field) => {
                let mut text = "invalid identifier: ".to_owned();
                text.append(field);
                text
            },
            SchemaError::InvalidClassification => "classification must be a lowercase policy label".to_owned(),
            SchemaError::MissingField(field) => {
                let mut text = "missing required field: ".to_owned();
                text.append(field);
                text
            },
            SchemaError::UnexpectedField(field) => {
                let mut text = "field is not permitted for this variant: ".to_owned();
                text.append(field);
                text
            },
            SchemaError::MixedEpistemicClass => "epistemic_class and interpretation.kind do not match".to_owned(),
            SchemaError::TooFewRelatedRecords => "correlation requires at least two related records".to_owned(),
            SchemaError::TooFewConflictRecords => "answer conflict requires at least two record ids".to_owned(),
            SchemaError::InvalidIntegrity => "integrity must be lowercase SHA-256".to_owned(),
            SchemaError::InvalidSequenceGap { start, end } => {
                let mut text = "invalid sequence gap ".to_owned();
                text.append(decimal(*start).as_str());
                text.append("..");
                text.append(decimal(*end).as_str());
                text
            },
            SchemaError::InvalidSampling => "sampled frontiers require a rate in (0, 1], other modes require null".to_owned(),
            SchemaError::DeduplicationCanonicalCount => "deduplication requires exactly one canonical replacement".to_owned(),
        }
    }
}

} // verus!
