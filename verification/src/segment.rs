//! Immutable, bounded, integrity-checked segment containers.
//!
//! A container is a 24-byte prelude (`FABSEG01`, format version, flags, manifest
//! length, payload length, all big-endian), the canonical JSON manifest, one
//! Zstandard frame of canonical JSONL rows, and a 72-byte trailer (`FABEND01`, the
//! SHA-256 of the manifest bytes, the SHA-256 of the payload bytes). JSON text is
//! read and written by the caller; this module frames, bounds and checks bytes,
//! derives every manifest field from the records, and compresses and hashes.
use vstd::prelude::*;

use crate::ordering::{rfc3339_instant, LogicalTime, Timestamp};
use crate::schema::{first_some, lemma_first_some_skip, schema_message_of, EvidenceRecord, SchemaError};
use crate::text::{
    check_label, check_lower_hex_digest, clone_texts, compare_keys, compare_text, decimal,
    decimal_text, is_label, is_lower_hex_digest, keys_lt, lemma_keys_lt_asymmetric,
    lemma_keys_lt_irreflexive, lemma_keys_lt_total, lemma_keys_lt_transitive, lower_hex,
    lower_hex_text, text_equal, text_lt, texts, TextOrder, TextSet,
};

verus! {

pub const MANIFEST_VERSION: &'static str = "fabric.segment.manifest/v1";

pub const SCHEMA_SET_VERSION: &'static str = "fabric.evidence/v1";

pub const FORMAT_VERSION: u16 = 1;

pub const FILE_EXTENSION: &'static str = "fseg";

pub const PRELUDE_LENGTH: usize = 24;

pub const TRAILER_LENGTH: usize = 72;

pub const MAX_MANIFEST_BYTES: usize = 65536;

pub const MAX_COMPRESSED_BYTES: u64 = 268435456;

pub const MAX_UNCOMPRESSED_BYTES: u64 = 268435456;

pub const MAX_ROWS: u64 = 10000000;

/// The payload needs a compression dictionary.
pub const FLAG_DICTIONARY: u16 = 1;

/// The manifest carries the digest of the uncompressed content.
pub const FLAG_CONTENT_DIGEST: u16 = 2;

/// Every flag format v1 understands.
pub const SUPPORTED_FLAGS: u16 = 3;

/// The eight bytes `FABSEG01` that open a container.
pub open spec fn prelude_magic() -> Seq<u8> {
    seq![70u8, 65u8, 66u8, 83u8, 69u8, 71u8, 48u8, 49u8]
}

/// The eight bytes `FABEND01` that open the trailer.
pub open spec fn trailer_magic() -> Seq<u8> {
    seq![70u8, 65u8, 66u8, 69u8, 78u8, 68u8, 48u8, 49u8]
}

/// The SHA-256 digest of a byte string.
pub uninterp spec fn sha256_of(bytes: Seq<u8>) -> Seq<u8>;

/// Calls `sha2::Sha256::digest` on the bytes. The result is the named `sha256_of`
/// of the input, and is 32 bytes long, the output size of SHA-256.
#[verifier::external_body]
fn sha256_bytes(bytes: &[u8]) -> (digest: Vec<u8>)
    ensures
        digest@ == sha256_of(bytes@),
        digest@.len() == 32,
{
    <sha2::Sha256 as sha2::Digest>::digest(bytes).to_vec()
}

/// The lowercase hexadecimal SHA-256 digest of bytes.
pub fn sha256_hex(bytes: &[u8]) -> (hex: String)
    ensures
        hex@ == lower_hex_text(sha256_of(bytes@)),
{
    let digest = sha256_bytes(bytes);
    lower_hex(digest.as_slice())
}

/// The path of a segment file in a directory: the directory, a separator unless the
/// directory already ends with one or is empty, then `<segment_id>.fseg`.
pub open spec fn segment_path_text(directory: Seq<char>, segment_id: Seq<char>) -> Seq<char> {
    let name = segment_id + "."@ + FILE_EXTENSION@;
    if directory.len() == 0 {
        name
    } else if directory.last() == '/' {
        directory + name
    } else {
        directory + "/"@ + name
    }
}

/// The path of the segment file with this id in a directory.
pub fn segment_path(directory: &str, segment_id: &str) -> (path: String)
    ensures
        path@ == segment_path_text(directory@, segment_id@),
{
    let mut path = directory.to_owned();
    let n = directory.unicode_len();
    if n > 0 && directory.get_char(n - 1) != '/' {
        path.append("/");
    }
    path.append(segment_id);
    path.append(".");
    path.append(FILE_EXTENSION);
    proof {
        if n > 0 {
            assert(directory@.last() == directory@[n - 1]);
        }
        assert(path@ =~= segment_path_text(directory@, segment_id@));
    }
    path
}

/// What writing a sealed segment finds at its final path: the same bytes make the
/// write idempotent, other bytes are a conflict that never overwrites them.
pub fn existing_segment_outcome(path: String, existing: &[u8], bytes: &[u8]) -> (result: Result<String, SegmentError>)
    ensures
        existing@ == bytes@ ==> result == Ok::<String, SegmentError>(path),
        existing@ != bytes@ ==> result == Err::<String, SegmentError>(SegmentError::ImmutableConflict(path)),
{
    if bytes_equal(existing, bytes) {
        Ok(path)
    } else {
        Err(SegmentError::ImmutableConflict(path))
    }
}

/// The name of the temporary file a write of a segment goes through: a dot file
/// named by the segment id and the writing process, ending in `.partial`.
pub fn partial_segment_name(segment_id: &str, process_id: u32) -> (name: String)
    ensures
        name@ == "."@ + segment_id@ + "."@ + decimal_text(process_id as nat) + ".partial"@,
{
    let mut name = ".".to_owned();
    name.append(segment_id);
    name.append(".");
    name.append(decimal(process_id as u64).as_str());
    name.append(".partial");
    name
}

/// The largest segment file a reader accepts: the prelude, the largest manifest,
/// the trailer and the largest payload.
pub open spec fn max_segment_file_bytes() -> u64 {
    (24 + 65536 + 72 + 268435456) as u64
}

/// Refuses a segment file larger than any valid container before it is read.
pub fn check_segment_file_length(length: u64) -> (result: Result<(), SegmentError>)
    ensures
        length <= max_segment_file_bytes() ==> result is Ok,
        length > max_segment_file_bytes() ==> result == Err::<(), SegmentError>(SegmentError::PayloadTooLarge(length)),
{
    let maximum: u64 = (PRELUDE_LENGTH + MAX_MANIFEST_BYTES + TRAILER_LENGTH) as u64 + MAX_COMPRESSED_BYTES;
    if length > maximum {
        return Err(SegmentError::PayloadTooLarge(length));
    }
    Ok(())
}

/// `256` to the power `k`.
pub open spec fn pow256(k: nat) -> nat
    decreases k,
{
    if k == 0 {
        1
    } else {
        256 * pow256((k - 1) as nat)
    }
}

/// The unsigned number that bytes denote, most significant byte first.
pub open spec fn be_value(b: Seq<u8>) -> nat
    decreases b.len(),
{
    if b.len() == 0 {
        0
    } else {
        be_value(b.drop_last()) * 256 + b.last() as nat
    }
}

/// The `w` low-order bytes of a number, most significant first.
pub open spec fn be_bytes(v: nat, w: nat) -> Seq<u8>
    decreases w,
{
    if w == 0 {
        Seq::empty()
    } else {
        be_bytes(v / 256, (w - 1) as nat).push((v % 256) as u8)
    }
}

proof fn lemma_pow256_positive(k: nat)
    ensures
        pow256(k) > 0,
    decreases k,
{
    if k > 0 {
        lemma_pow256_positive((k - 1) as nat);
    }
}

/// A number read from `w` bytes is below `256^w`.
proof fn lemma_be_value_bound(b: Seq<u8>)
    ensures
        be_value(b) < pow256(b.len()),
    decreases b.len(),
{
    if b.len() > 0 {
        let rest = b.drop_last();
        lemma_be_value_bound(rest);
        let v = be_value(rest);
        let p = pow256(rest.len());
        let last = b.last();
        assert(v * 256 + last < p * 256) by (nonlinear_arith)
            requires
                v < p,
                last < 256,
        ;
    }
}

/// Writing a number as `w` bytes and reading it back gives the number, when it fits.
pub proof fn lemma_be_round_trip(v: nat, w: nat)
    requires
        v < pow256(w),
    ensures
        be_bytes(v, w).len() == w,
        be_value(be_bytes(v, w)) == v,
    decreases w,
{
    if w > 0 {
        let q = v / 256;
        let r = v % 256;
        let p = pow256((w - 1) as nat);
        assert(v == q * 256 + r && 0 <= r < 256) by (nonlinear_arith)
            requires
                q == v / 256,
                r == v % 256,
        ;
        assert(q < p) by (nonlinear_arith)
            requires
                v == q * 256 + r,
                0 <= r,
                v < 256 * p,
        ;
        lemma_be_round_trip(q, (w - 1) as nat);
        let b = be_bytes(v, w);
        assert(b.drop_last() =~= be_bytes(q, (w - 1) as nat));
        assert(b.last() == (r as u8));
    }
}

/// Reads `width` bytes at `at` as a big-endian number.
fn read_be(bytes: &[u8], at: usize, width: usize) -> (v: u64)
    requires
        width <= 8,
        at + width <= bytes@.len(),
    ensures
        v == be_value(bytes@.subrange(at as int, at + width)),
{
    let mut v: u64 = 0;
    let mut k: usize = 0;
    let n = bytes.len();
    proof {
        assert(bytes@.subrange(at as int, at as int) =~= Seq::<u8>::empty());
    }
    while k < width
        invariant
            k <= width <= 8,
            n == bytes@.len(),
            at + width <= bytes@.len(),
            v == be_value(bytes@.subrange(at as int, at + k)),
        decreases width - k,
    {
        proof {
            lemma_be_value_bound(bytes@.subrange(at as int, at + k));
            assert(pow256(k as nat) <= pow256(7)) by {
                lemma_pow256_monotone(k as nat, 7);
            }
            assert(pow256(7) == 72057594037927936) by {
                reveal_with_fuel(pow256, 8);
            }
            assert(v < 72057594037927936);
            assert(v * 256 + 255 <= 18446744073709551615) by (nonlinear_arith)
                requires
                    v < 72057594037927936,
            ;
        }
        let b = bytes[at + k];
        let shifted: u64 = v * 256;
        v = shifted + b as u64;
        proof {
            let next = bytes@.subrange(at as int, at + k + 1);
            assert(next.drop_last() =~= bytes@.subrange(at as int, at + k));
            assert(next.last() == b);
        }
        k = k + 1;
    }
    v
}

proof fn lemma_pow256_monotone(a: nat, b: nat)
    requires
        a <= b,
    ensures
        pow256(a) <= pow256(b),
    decreases b,
{
    if a < b {
        lemma_pow256_monotone(a, (b - 1) as nat);
        lemma_pow256_positive((b - 1) as nat);
    }
}

/// Appends the `width` low-order bytes of a number, most significant first.
fn push_be(out: &mut Vec<u8>, v: u64, width: usize)
    ensures
        final(out)@ == old(out)@ + be_bytes(v as nat, width as nat),
    decreases width,
{
    if width > 0 {
        push_be(out, v / 256, width - 1);
        out.push((v % 256) as u8);
        proof {
            assert(be_bytes(v as nat, width as nat) == be_bytes((v / 256) as nat, (width - 1) as nat).push(
                (v % 256) as u8,
            ));
        }
    } else {
        proof {
            assert(old(out)@ + be_bytes(v as nat, 0) =~= old(out)@);
        }
    }
}

/// An inclusive range of timestamps.
#[derive(Clone, Debug, Eq, PartialEq)]
pub struct TimeRange {
    pub min: Timestamp,
    pub max: Timestamp,
}

/// The sequence positions a segment holds for one producer stream.
#[derive(Clone, Debug, Eq, PartialEq, Ord, PartialOrd)]
pub struct ProducerSequenceRange {
    pub producer_id: String,
    pub stream_id: String,
    pub min: u64,
    pub max: u64,
}

/// The counters a segment holds for one logical clock.
#[derive(Clone, Debug, Eq, PartialEq, Ord, PartialOrd)]
pub struct LogicalRange {
    pub clock_id: String,
    pub min: u64,
    pub max: u64,
}

/// The pruning bounds of a segment's records.
#[derive(Clone, Debug, Eq, PartialEq)]
pub struct OrderingBounds {
    pub producer_sequences: Vec<ProducerSequenceRange>,
    pub logical_clocks: Vec<LogicalRange>,
    pub observed_at: Option<TimeRange>,
    pub observed_by_at: Option<TimeRange>,
    pub recorded_at: Option<TimeRange>,
}

/// The digest-addressed identity of a compression dictionary.
#[derive(Clone, Debug, Eq, PartialEq, Ord, PartialOrd, Hash)]
pub struct DictionaryLocator {
    pub family: String,
    pub version: u64,
    pub digest: String,
}

/// A dictionary locator as plain values.
pub ghost struct LocatorView {
    pub family: Seq<char>,
    pub version: u64,
    pub digest: Seq<char>,
}

impl View for DictionaryLocator {
    type V = LocatorView;

    open spec fn view(&self) -> LocatorView {
        LocatorView { family: self.family@, version: self.version, digest: self.digest@ }
    }
}

impl DictionaryLocator {
    /// A copy of the locator.
    pub fn copy(&self) -> (copy: DictionaryLocator)
        ensures
            copy == *self,
    {
        DictionaryLocator { family: self.family.clone(), version: self.version, digest: self.digest.clone() }
    }

    /// Whether two locators name the same dictionary.
    pub fn same_as(&self, other: &DictionaryLocator) -> (same: bool)
        ensures
            same == (self@ == other@),
    {
        text_equal(self.family.as_str(), other.family.as_str()) && self.version == other.version
            && text_equal(self.digest.as_str(), other.digest.as_str())
    }
}

/// The placement of one compressed frame.
#[derive(Clone, Copy, Debug, Eq, PartialEq)]
pub struct FrameManifest {
    pub frame_index: u64,
    pub payload_offset: u64,
    pub compressed_bytes: u64,
    pub uncompressed_bytes: u64,
    pub row_start: u64,
    pub row_count: u64,
}

/// How the payload is compressed.
#[derive(Clone, Debug, Eq, PartialEq)]
pub struct CompressionManifest {
    pub codec: String,
    pub level: i32,
    pub dictionary: Option<DictionaryLocator>,
    pub frames: Vec<FrameManifest>,
}

/// The digests of the payload and of the uncompressed content.
#[derive(Clone, Debug, Eq, PartialEq)]
pub struct SegmentIntegrity {
    pub payload_sha256: String,
    pub content_sha256: String,
}

/// The manifest of a segment.
#[derive(Clone, Debug, Eq, PartialEq)]
pub struct SegmentManifest {
    pub api_version: String,
    pub format_version: u16,
    pub segment_id: String,
    pub created_at: Timestamp,
    pub schema_set_id: String,
    pub row_count: u64,
    pub frame_count: u64,
    pub ordering_bounds: OrderingBounds,
    pub classifications: TextSet,
    pub compression: CompressionManifest,
    pub integrity: SegmentIntegrity,
}

/// The category of a segment failure.
#[derive(Clone, Copy, Debug, Eq, PartialEq, Structural)]
pub enum SegmentErrorCategory {
    Io,
    InvalidMagic,
    UnsupportedVersion,
    UnsupportedFlags,
    HeaderTooLarge,
    PayloadTooLarge,
    ContentTooLarge,
    Truncated,
    TrailingData,
    ManifestChecksumMismatch,
    ManifestInvalid,
    PayloadChecksumMismatch,
    MissingDictionary,
    DictionaryDigestMismatch,
    DecompressionFailed,
    ContentChecksumMismatch,
    RowLimitExceeded,
    RowInvalid,
    ImmutableConflict,
    SchemaInvalid,
}

/// Segment failures. No category permits partial replay.
#[derive(Clone, Debug, PartialEq)]
pub enum SegmentError {
    Io(String),
    InvalidMagic,
    UnsupportedVersion(u16),
    UnsupportedFlags(u16),
    HeaderTooLarge(u64),
    PayloadTooLarge(u64),
    ContentTooLarge(u64),
    Truncated,
    TrailingData,
    ManifestChecksumMismatch,
    ManifestInvalid(String),
    PayloadChecksumMismatch,
    MissingDictionary(DictionaryLocator),
    DictionaryDigestMismatch(DictionaryLocator),
    DecompressionFailed(String),
    ContentChecksumMismatch,
    RowLimitExceeded(u64),
    RowInvalid { row: u64, message: String },
    ImmutableConflict(String),
    SchemaInvalid(String),
}

/// The category of each failure.
pub open spec fn category_of(error: SegmentError) -> SegmentErrorCategory {
    match error {
        SegmentError::Io(_) => SegmentErrorCategory::Io,
        SegmentError::InvalidMagic => SegmentErrorCategory::InvalidMagic,
        SegmentError::UnsupportedVersion(_) => SegmentErrorCategory::UnsupportedVersion,
        SegmentError::UnsupportedFlags(_) => SegmentErrorCategory::UnsupportedFlags,
        SegmentError::HeaderTooLarge(_) => SegmentErrorCategory::HeaderTooLarge,
        SegmentError::PayloadTooLarge(_) => SegmentErrorCategory::PayloadTooLarge,
        SegmentError::ContentTooLarge(_) => SegmentErrorCategory::ContentTooLarge,
        SegmentError::Truncated => SegmentErrorCategory::Truncated,
        SegmentError::TrailingData => SegmentErrorCategory::TrailingData,
        SegmentError::ManifestChecksumMismatch => SegmentErrorCategory::ManifestChecksumMismatch,
        SegmentError::ManifestInvalid(_) => SegmentErrorCategory::ManifestInvalid,
        SegmentError::PayloadChecksumMismatch => SegmentErrorCategory::PayloadChecksumMismatch,
        SegmentError::MissingDictionary(_) => SegmentErrorCategory::MissingDictionary,
        SegmentError::DictionaryDigestMismatch(_) => SegmentErrorCategory::DictionaryDigestMismatch,
        SegmentError::DecompressionFailed(_) => SegmentErrorCategory::DecompressionFailed,
        SegmentError::ContentChecksumMismatch => SegmentErrorCategory::ContentChecksumMismatch,
        SegmentError::RowLimitExceeded(_) => SegmentErrorCategory::RowLimitExceeded,
        SegmentError::RowInvalid { .. } => SegmentErrorCategory::RowInvalid,
        SegmentError::ImmutableConflict(_) => SegmentErrorCategory::ImmutableConflict,
        SegmentError::SchemaInvalid(_) => SegmentErrorCategory::SchemaInvalid,
    }
}

impl SegmentError {
    /// The category of the failure.
    pub fn category(&self) -> (category: SegmentErrorCategory)
        ensures
            category == category_of(*self),
    {
        match self {
            SegmentError::Io(_) => SegmentErrorCategory::Io,
            SegmentError::InvalidMagic => SegmentErrorCategory::InvalidMagic,
            SegmentError::UnsupportedVersion(_) => SegmentErrorCategory::UnsupportedVersion,
            SegmentError::UnsupportedFlags(_) => SegmentErrorCategory::UnsupportedFlags,
            SegmentError::HeaderTooLarge(_) => SegmentErrorCategory::HeaderTooLarge,
            SegmentError::PayloadTooLarge(_) => SegmentErrorCategory::PayloadTooLarge,
            SegmentError::ContentTooLarge(_) => SegmentErrorCategory::ContentTooLarge,
            SegmentError::Truncated => SegmentErrorCategory::Truncated,
            SegmentError::TrailingData => SegmentErrorCategory::TrailingData,
            SegmentError::ManifestChecksumMismatch => SegmentErrorCategory::ManifestChecksumMismatch,
            SegmentError::ManifestInvalid(_) => SegmentErrorCategory::ManifestInvalid,
            SegmentError::PayloadChecksumMismatch => SegmentErrorCategory::PayloadChecksumMismatch,
            SegmentError::MissingDictionary(_) => SegmentErrorCategory::MissingDictionary,
            SegmentError::DictionaryDigestMismatch(_) => SegmentErrorCategory::DictionaryDigestMismatch,
            SegmentError::DecompressionFailed(_) => SegmentErrorCategory::DecompressionFailed,
            SegmentError::ContentChecksumMismatch => SegmentErrorCategory::ContentChecksumMismatch,
            SegmentError::RowLimitExceeded(_) => SegmentErrorCategory::RowLimitExceeded,
            SegmentError::RowInvalid { .. } => SegmentErrorCategory::RowInvalid,
            SegmentError::ImmutableConflict(_) => SegmentErrorCategory::ImmutableConflict,
            SegmentError::SchemaInvalid(_) => SegmentErrorCategory::SchemaInvalid,
        }
    }

    /// The failure of a record that breaks the evidence schema.
    pub fn from_schema(error: &SchemaError) -> (converted: SegmentError)
        ensures
            converted matches SegmentError::SchemaInvalid(message) && message@ == schema_message_of(error@),
    {
        SegmentError::SchemaInvalid(error.message())
    }
}

/// Whether two byte strings are equal.
pub fn bytes_equal(a: &[u8], b: &[u8]) -> (equal: bool)
    ensures
        equal == (a@ == b@),
{
    if a.len() != b.len() {
        return false;
    }
    let mut i: usize = 0;
    while i < a.len()
        invariant
            0 <= i <= a@.len(),
            a@.len() == b@.len(),
            forall|k: int| 0 <= k < i ==> a@[k] == b@[k],
        decreases a@.len() - i,
    {
        if a[i] != b[i] {
            return false;
        }
        i = i + 1;
    }
    assert(a@ =~= b@);
    true
}

fn prelude_magic_bytes() -> (magic: Vec<u8>)
    ensures
        magic@ == prelude_magic(),
{
    let magic = vec![70u8, 65u8, 66u8, 83u8, 69u8, 71u8, 48u8, 49u8];
    assert(magic@ =~= prelude_magic());
    magic
}

fn trailer_magic_bytes() -> (magic: Vec<u8>)
    ensures
        magic@ == trailer_magic(),
{
    let magic = vec![70u8, 65u8, 66u8, 69u8, 78u8, 68u8, 48u8, 49u8];
    assert(magic@ =~= trailer_magic());
    magic
}

/// The framing of a container: its flags, manifest bytes, payload bytes and the
/// payload digest its trailer records.
#[derive(Clone, Debug, Eq, PartialEq)]
pub struct ContainerFrame {
    pub flags: u16,
    pub manifest: Vec<u8>,
    pub payload: Vec<u8>,
    pub payload_digest: Vec<u8>,
}

/// A container framing as plain values.
pub ghost struct FrameView {
    pub flags: u16,
    pub manifest: Seq<u8>,
    pub payload: Seq<u8>,
    pub payload_digest: Seq<u8>,
}

impl View for ContainerFrame {
    type V = FrameView;

    open spec fn view(&self) -> FrameView {
        FrameView {
            flags: self.flags,
            manifest: self.manifest@,
            payload: self.payload@,
            payload_digest: self.payload_digest@,
        }
    }
}

/// What opening a container's bytes gives: the first framing failure, checked in
/// the order fewer bytes than the prelude or than the exact length it declares,
/// prelude and trailer magic, version, flags, manifest bound, payload bound,
/// trailing bytes, manifest checksum; or the framing.
pub open spec fn open_outcome(b: Seq<u8>) -> Result<FrameView, SegmentError> {
    if b.len() < 24 {
        Err(SegmentError::Truncated)
    } else {
        let version = be_value(b.subrange(8, 10));
        let flags = be_value(b.subrange(10, 12));
        let manifest_length = be_value(b.subrange(12, 16));
        let payload_length = be_value(b.subrange(16, 24));
        let manifest_end: int = 24 + manifest_length as int;
        let payload_end: int = manifest_end + payload_length;
        if b.len() < payload_end + 72 {
            Err(SegmentError::Truncated)
        } else if b.subrange(0, 8) != prelude_magic() || b.subrange(payload_end, payload_end + 8)
            != trailer_magic() {
            Err(SegmentError::InvalidMagic)
        } else if version != 1 {
            Err(SegmentError::UnsupportedVersion(version as u16))
        } else if flags > 3 {
            Err(SegmentError::UnsupportedFlags(flags as u16))
        } else if manifest_length > 65536 {
            Err(SegmentError::HeaderTooLarge(manifest_length as u64))
        } else if payload_length > 268435456 {
            Err(SegmentError::PayloadTooLarge(payload_length as u64))
        } else if b.len() > payload_end + 72 {
            Err(SegmentError::TrailingData)
        } else if b.subrange(payload_end + 8, payload_end + 40) != sha256_of(b.subrange(24, manifest_end)) {
            Err(SegmentError::ManifestChecksumMismatch)
        } else {
            Ok(
                FrameView {
                    flags: flags as u16,
                    manifest: b.subrange(24, manifest_end),
                    payload: b.subrange(manifest_end, payload_end),
                    payload_digest: b.subrange(payload_end + 40, payload_end + 72),
                },
            )
        }
    }
}

/// Checks a container's framing and splits it into manifest and payload.
pub fn open_container(bytes: &[u8]) -> (result: Result<ContainerFrame, SegmentError>)
    ensures
        match result {
            Ok(frame) => open_outcome(bytes@) == Ok::<FrameView, SegmentError>(frame@),
            Err(e) => open_outcome(bytes@) == Err::<FrameView, SegmentError>(e),
        },
{
    let n = bytes.len();
    if n < PRELUDE_LENGTH {
        return Err(SegmentError::Truncated);
    }
    let version = read_be(bytes, 8, 2);
    let flags = read_be(bytes, 10, 2);
    let manifest_length = read_be(bytes, 12, 4);
    let payload_length = read_be(bytes, 16, 8);
    proof {
        lemma_be_value_bound(bytes@.subrange(8, 10));
        lemma_be_value_bound(bytes@.subrange(10, 12));
        lemma_be_value_bound(bytes@.subrange(12, 16));
        reveal_with_fuel(pow256, 5);
    }
    let available = n as u64;
    if available < 96 + manifest_length {
        return Err(SegmentError::Truncated);
    }
    if payload_length > available - 96 - manifest_length {
        return Err(SegmentError::Truncated);
    }
    let manifest_end: usize = 24 + manifest_length as usize;
    let payload_end: usize = manifest_end + payload_length as usize;
    let prelude = prelude_magic_bytes();
    let trailer = trailer_magic_bytes();
    if !bytes_equal(&bytes[0..8], prelude.as_slice()) || !bytes_equal(
        &bytes[payload_end..payload_end + 8],
        trailer.as_slice(),
    ) {
        return Err(SegmentError::InvalidMagic);
    }
    if version != 1 {
        return Err(SegmentError::UnsupportedVersion(version as u16));
    }
    if flags > 3 {
        return Err(SegmentError::UnsupportedFlags(flags as u16));
    }
    if manifest_length > 65536 {
        return Err(SegmentError::HeaderTooLarge(manifest_length));
    }
    if payload_length > MAX_COMPRESSED_BYTES {
        return Err(SegmentError::PayloadTooLarge(payload_length));
    }
    if n > payload_end + TRAILER_LENGTH {
        return Err(SegmentError::TrailingData);
    }
    let manifest = &bytes[24..manifest_end];
    let manifest_digest = sha256_bytes(manifest);
    if !bytes_equal(&bytes[payload_end + 8..payload_end + 40], manifest_digest.as_slice()) {
        return Err(SegmentError::ManifestChecksumMismatch);
    }
    let frame = ContainerFrame {
        flags: flags as u16,
        manifest: vstd::slice::slice_to_vec(manifest),
        payload: vstd::slice::slice_to_vec(&bytes[manifest_end..payload_end]),
        payload_digest: vstd::slice::slice_to_vec(&bytes[payload_end + 40..payload_end + 72]),
    };
    Ok(frame)
}

/// The bytes of a container with these flags, manifest and payload.
pub open spec fn container_bytes(flags: u16, manifest: Seq<u8>, payload: Seq<u8>) -> Seq<u8> {
    prelude_magic() + be_bytes(1, 2) + be_bytes(flags as nat, 2) + be_bytes(manifest.len(), 4) + be_bytes(
        payload.len(),
        8,
    ) + manifest + payload + trailer_magic() + sha256_of(manifest) + sha256_of(payload)
}

/// Frames a manifest and a payload into a container.
pub fn assemble_container(flags: u16, manifest: &[u8], payload: &[u8]) -> (bytes: Vec<u8>)
    requires
        manifest@.len() <= 65536,
        payload@.len() <= 268435456,
    ensures
        bytes@ == container_bytes(flags, manifest@, payload@),
{
    let mut bytes = prelude_magic_bytes();
    push_be(&mut bytes, 1, 2);
    push_be(&mut bytes, flags as u64, 2);
    push_be(&mut bytes, manifest.len() as u64, 4);
    push_be(&mut bytes, payload.len() as u64, 8);
    let ghost head = bytes@;
    append_bytes(&mut bytes, manifest);
    append_bytes(&mut bytes, payload);
    let trailer = trailer_magic_bytes();
    append_bytes(&mut bytes, trailer.as_slice());
    let manifest_digest = sha256_bytes(manifest);
    append_bytes(&mut bytes, manifest_digest.as_slice());
    let payload_digest = sha256_bytes(payload);
    append_bytes(&mut bytes, payload_digest.as_slice());
    bytes
}

/// Appends bytes to a buffer.
fn append_bytes(out: &mut Vec<u8>, more: &[u8])
    ensures
        final(out)@ == old(out)@ + more@,
{
    let ghost start = out@;
    let mut i: usize = 0;
    while i < more.len()
        invariant
            0 <= i <= more@.len(),
            out@ == start + more@.subrange(0, i as int),
        decreases more@.len() - i,
    {
        out.push(more[i]);
        assert(out@ =~= start + more@.subrange(0, i + 1));
        i = i + 1;
    }
    assert(more@.subrange(0, more@.len() as int) =~= more@);
}

proof fn lemma_container_layout(flags: u16, manifest: Seq<u8>, payload: Seq<u8>)
    requires
        manifest.len() <= 65536,
        payload.len() <= 268435456,
        sha256_of(manifest).len() == 32,
        sha256_of(payload).len() == 32,
    ensures
        ({
            let b = container_bytes(flags, manifest, payload);
            let m = manifest.len() as int;
            let p = payload.len() as int;
            &&& b.len() == 24 + m + p + 72
            &&& b.subrange(0, 8) == prelude_magic()
            &&& be_value(b.subrange(8, 10)) == 1
            &&& be_value(b.subrange(10, 12)) == flags
            &&& be_value(b.subrange(12, 16)) == m
            &&& be_value(b.subrange(16, 24)) == p
            &&& b.subrange(24, 24 + m) == manifest
            &&& b.subrange(24 + m, 24 + m + p) == payload
            &&& b.subrange(24 + m + p, 24 + m + p + 8) == trailer_magic()
            &&& b.subrange(24 + m + p + 8, 24 + m + p + 40) == sha256_of(manifest)
            &&& b.subrange(24 + m + p + 40, 24 + m + p + 72) == sha256_of(payload)
        }),
{
    reveal_with_fuel(pow256, 9);
    let m = manifest.len() as int;
    let p = payload.len() as int;
    lemma_be_round_trip(1, 2);
    lemma_be_round_trip(flags as nat, 2);
    lemma_be_round_trip(m as nat, 4);
    lemma_be_round_trip(p as nat, 8);
    let v1 = be_bytes(1, 2);
    let vf = be_bytes(flags as nat, 2);
    let vm = be_bytes(m as nat, 4);
    let vp = be_bytes(p as nat, 8);
    let b = container_bytes(flags, manifest, payload);
    assert(b.subrange(0, 8) =~= prelude_magic());
    assert(b.subrange(8, 10) =~= v1);
    assert(b.subrange(10, 12) =~= vf);
    assert(b.subrange(12, 16) =~= vm);
    assert(b.subrange(16, 24) =~= vp);
    assert(b.subrange(24, 24 + m) =~= manifest);
    assert(b.subrange(24 + m, 24 + m + p) =~= payload);
    assert(b.subrange(24 + m + p, 24 + m + p + 8) =~= trailer_magic());
    assert(b.subrange(24 + m + p + 8, 24 + m + p + 40) =~= sha256_of(manifest));
    assert(b.subrange(24 + m + p + 40, 24 + m + p + 72) =~= sha256_of(payload));
}

/// A container opens to exactly the flags, manifest and payload it was framed
/// from, with the digest of that payload.
pub proof fn lemma_container_round_trip(flags: u16, manifest: Seq<u8>, payload: Seq<u8>)
    requires
        flags <= 3,
        manifest.len() <= 65536,
        payload.len() <= 268435456,
        sha256_of(manifest).len() == 32,
        sha256_of(payload).len() == 32,
    ensures
        open_outcome(container_bytes(flags, manifest, payload)) == Ok::<FrameView, SegmentError>(
            FrameView { flags, manifest, payload, payload_digest: sha256_of(payload) },
        ),
{
    lemma_container_layout(flags, manifest, payload);
}

/// A container missing its last byte is reported truncated, and a container with a
/// byte appended is reported as carrying trailing data.
pub proof fn lemma_container_damage_is_distinct(flags: u16, manifest: Seq<u8>, payload: Seq<u8>, extra: u8)
    requires
        flags <= 3,
        manifest.len() <= 65536,
        payload.len() <= 268435456,
        sha256_of(manifest).len() == 32,
        sha256_of(payload).len() == 32,
    ensures
        open_outcome(container_bytes(flags, manifest, payload).drop_last()) == Err::<FrameView, SegmentError>(
            SegmentError::Truncated,
        ),
        open_outcome(container_bytes(flags, manifest, payload).push(extra)) == Err::<FrameView, SegmentError>(
            SegmentError::TrailingData,
        ),
{
    lemma_container_layout(flags, manifest, payload);
    let b = container_bytes(flags, manifest, payload);
    let short = b.drop_last();
    let long = b.push(extra);
    assert(short.subrange(0, 8) =~= b.subrange(0, 8));
    assert(short.subrange(8, 10) =~= b.subrange(8, 10));
    assert(short.subrange(10, 12) =~= b.subrange(10, 12));
    assert(short.subrange(12, 16) =~= b.subrange(12, 16));
    assert(short.subrange(16, 24) =~= b.subrange(16, 24));
    assert(long.subrange(0, 8) =~= b.subrange(0, 8));
    assert(long.subrange(8, 10) =~= b.subrange(8, 10));
    assert(long.subrange(10, 12) =~= b.subrange(10, 12));
    assert(long.subrange(12, 16) =~= b.subrange(12, 16));
    assert(long.subrange(16, 24) =~= b.subrange(16, 24));
    let end: int = 24 + manifest.len() as int + payload.len() as int;
    assert(long.subrange(end, end + 8) =~= b.subrange(end, end + 8));
}

/// A segment failure as plain values.
pub ghost enum SegmentFault {
    Io(Seq<char>),
    InvalidMagic,
    UnsupportedVersion(u16),
    UnsupportedFlags(u16),
    HeaderTooLarge(u64),
    PayloadTooLarge(u64),
    ContentTooLarge(u64),
    Truncated,
    TrailingData,
    ManifestChecksumMismatch,
    ManifestInvalid(Seq<char>),
    PayloadChecksumMismatch,
    MissingDictionary(LocatorView),
    DictionaryDigestMismatch(LocatorView),
    DecompressionFailed(Seq<char>),
    ContentChecksumMismatch,
    RowLimitExceeded(u64),
    RowInvalid { row: u64, message: Seq<char> },
    ImmutableConflict(Seq<char>),
    SchemaInvalid(Seq<char>),
}

impl View for SegmentError {
    type V = SegmentFault;

    open spec fn view(&self) -> SegmentFault {
        match self {
            SegmentError::Io(m) => SegmentFault::Io(m@),
            SegmentError::InvalidMagic => SegmentFault::InvalidMagic,
            SegmentError::UnsupportedVersion(v) => SegmentFault::UnsupportedVersion(*v),
            SegmentError::UnsupportedFlags(f) => SegmentFault::UnsupportedFlags(*f),
            SegmentError::HeaderTooLarge(n) => SegmentFault::HeaderTooLarge(*n),
            SegmentError::PayloadTooLarge(n) => SegmentFault::PayloadTooLarge(*n),
            SegmentError::ContentTooLarge(n) => SegmentFault::ContentTooLarge(*n),
            SegmentError::Truncated => SegmentFault::Truncated,
            SegmentError::TrailingData => SegmentFault::TrailingData,
            SegmentError::ManifestChecksumMismatch => SegmentFault::ManifestChecksumMismatch,
            SegmentError::ManifestInvalid(m) => SegmentFault::ManifestInvalid(m@),
            SegmentError::PayloadChecksumMismatch => SegmentFault::PayloadChecksumMismatch,
            SegmentError::MissingDictionary(l) => SegmentFault::MissingDictionary(l@),
            SegmentError::DictionaryDigestMismatch(l) => SegmentFault::DictionaryDigestMismatch(l@),
            SegmentError::DecompressionFailed(m) => SegmentFault::DecompressionFailed(m@),
            SegmentError::ContentChecksumMismatch => SegmentFault::ContentChecksumMismatch,
            SegmentError::RowLimitExceeded(n) => SegmentFault::RowLimitExceeded(*n),
            SegmentError::RowInvalid { row, message } => SegmentFault::RowInvalid { row: *row, message: message@ },
            SegmentError::ImmutableConflict(p) => SegmentFault::ImmutableConflict(p@),
            SegmentError::SchemaInvalid(m) => SegmentFault::SchemaInvalid(m@),
        }
    }
}

/// The fault a check reports, if any.
pub open spec fn check_fault(result: Result<(), SegmentError>) -> Option<SegmentFault> {
    match result {
        Ok(()) => None,
        Err(e) => Some(e@),
    }
}

/// The instant a timestamp denotes.
pub open spec fn instant_of(t: Timestamp) -> int {
    rfc3339_instant(t@)->0
}

/// A time range whose minimum follows its maximum.
pub open spec fn time_range_inverted(range: Option<TimeRange>) -> bool {
    range matches Some(r) && instant_of(r.min) > instant_of(r.max)
}

/// The first kind of malformed range in a set of ordering bounds: producer ranges,
/// then logical clock ranges, then time ranges.
pub open spec fn ranges_fault(b: OrderingBounds) -> Option<SegmentFault> {
    if exists|i: int|
        0 <= i < b.producer_sequences@.len() && {
            let r = #[trigger] b.producer_sequences@[i];
            r.producer_id@.len() == 0 || r.stream_id@.len() == 0 || r.min > r.max
        } {
        Some(SegmentFault::ManifestInvalid("producer sequence range is inverted"@))
    } else if exists|i: int|
        0 <= i < b.logical_clocks@.len() && {
            let r = #[trigger] b.logical_clocks@[i];
            r.clock_id@.len() == 0 || r.min > r.max
        } {
        Some(SegmentFault::ManifestInvalid("logical clock range is inverted"@))
    } else if time_range_inverted(b.observed_at) || time_range_inverted(b.observed_by_at)
        || time_range_inverted(b.recorded_at) {
        Some(SegmentFault::ManifestInvalid("time range is inverted"@))
    } else {
        None
    }
}

fn time_range_ok(range: &Option<TimeRange>) -> (ok: bool)
    ensures
        ok == !time_range_inverted(*range),
{
    match range {
        Some(r) => r.min.instant() <= r.max.instant(),
        None => true,
    }
}

/// Checks that every range of the bounds is well formed.
fn validate_ranges(bounds: &OrderingBounds) -> (result: Result<(), SegmentError>)
    ensures
        check_fault(result) == ranges_fault(*bounds),
{
    let mut i: usize = 0;
    while i < bounds.producer_sequences.len()
        invariant
            0 <= i <= bounds.producer_sequences@.len(),
            forall|k: int|
                0 <= k < i ==> {
                    let r = #[trigger] bounds.producer_sequences@[k];
                    !(r.producer_id@.len() == 0 || r.stream_id@.len() == 0 || r.min > r.max)
                },
        decreases bounds.producer_sequences@.len() - i,
    {
        let r = &bounds.producer_sequences[i];
        if r.producer_id.unicode_len() == 0 || r.stream_id.unicode_len() == 0 || r.min > r.max {
            return Err(SegmentError::ManifestInvalid("producer sequence range is inverted".to_owned()));
        }
        i = i + 1;
    }
    let mut j: usize = 0;
    while j < bounds.logical_clocks.len()
        invariant
            0 <= j <= bounds.logical_clocks@.len(),
            forall|k: int|
                0 <= k < bounds.producer_sequences@.len() ==> {
                    let r = #[trigger] bounds.producer_sequences@[k];
                    !(r.producer_id@.len() == 0 || r.stream_id@.len() == 0 || r.min > r.max)
                },
            forall|k: int|
                0 <= k < j ==> {
                    let r = #[trigger] bounds.logical_clocks@[k];
                    !(r.clock_id@.len() == 0 || r.min > r.max)
                },
        decreases bounds.logical_clocks@.len() - j,
    {
        let r = &bounds.logical_clocks[j];
        if r.clock_id.unicode_len() == 0 || r.min > r.max {
            return Err(SegmentError::ManifestInvalid("logical clock range is inverted".to_owned()));
        }
        j = j + 1;
    }
    if !time_range_ok(&bounds.observed_at) || !time_range_ok(&bounds.observed_by_at) || !time_range_ok(
        &bounds.recorded_at,
    ) {
        return Err(SegmentError::ManifestInvalid("time range is inverted".to_owned()));
    }
    Ok(())
}

/// A dictionary locator whose family is not a label, whose version is zero or whose
/// digest is not a lowercase SHA-256 digest.
pub open spec fn locator_malformed(l: DictionaryLocator) -> bool {
    !is_label(l.family@) || l.version == 0 || !is_lower_hex_digest(l.digest@)
}

/// The single frame of a manifest disagrees with the manifest or the payload length.
pub open spec fn frame_disagrees(m: SegmentManifest, compressed_length: u64) -> bool {
    let f = m.compression.frames@[0];
    f.frame_index != 0 || f.payload_offset != 0 || f.row_start != 0 || f.row_count != m.row_count
        || f.compressed_bytes == 0 || f.compressed_bytes != compressed_length
}

/// The first shape failure of a manifest read with these container flags and
/// payload length, in the order the checks run.
pub open spec fn shape_fault(m: SegmentManifest, flags: u16, compressed_length: u64) -> Option<SegmentFault> {
    if m.api_version@ != MANIFEST_VERSION@ || m.format_version != 1 {
        Some(SegmentFault::ManifestInvalid("manifest envelope or format version is unsupported"@))
    } else if m.schema_set_id@ != SCHEMA_SET_VERSION@ {
        Some(SegmentFault::ManifestInvalid("unsupported schema_set_id"@))
    } else if m.row_count == 0 || m.row_count > 10000000 {
        Some(SegmentFault::RowLimitExceeded(m.row_count))
    } else if m.frame_count != 1 || m.compression.frames@.len() != 1 {
        Some(SegmentFault::ManifestInvalid("format v1 requires exactly one frame"@))
    } else if m.classifications@.len() == 0 {
        Some(SegmentFault::ManifestInvalid("classifications must not be empty"@))
    } else if m.compression.codec@ != "zstd"@ {
        Some(SegmentFault::ManifestInvalid("compression codec must be zstd"@))
    } else if !(-7 <= m.compression.level <= 22) {
        Some(SegmentFault::ManifestInvalid("Zstandard compression level is outside -7..=22"@))
    } else if frame_disagrees(m, compressed_length) {
        Some(SegmentFault::ManifestInvalid("frame offsets, sizes, or row counts disagree"@))
    } else if m.compression.frames@[0].uncompressed_bytes == 0 || m.compression.frames@[0].uncompressed_bytes
        > 268435456 {
        Some(SegmentFault::ContentTooLarge(m.compression.frames@[0].uncompressed_bytes))
    } else if (flags % 2 == 1) != (m.compression.dictionary is Some) {
        Some(SegmentFault::ManifestInvalid("dictionary flag and locator disagree"@))
    } else if m.compression.dictionary matches Some(l) && locator_malformed(l) {
        Some(SegmentFault::ManifestInvalid("dictionary locator is malformed"@))
    } else if exists|i: int| 0 <= i < m.classifications@.len() && !is_label(#[trigger] m.classifications@[i]) {
        Some(SegmentFault::ManifestInvalid("classification label is malformed"@))
    } else if (flags / 2) % 2 == 0 {
        Some(SegmentFault::ManifestInvalid("format v1 requires the uncompressed content digest flag"@))
    } else if m.segment_id@ != "seg-"@ + m.integrity.content_sha256@ || !is_lower_hex_digest(
        m.integrity.payload_sha256@,
    ) || !is_lower_hex_digest(m.integrity.content_sha256@) {
        Some(SegmentFault::ManifestInvalid("segment identity or integrity digest is malformed"@))
    } else {
        ranges_fault(m.ordering_bounds)
    }
}

fn invalid(reason: &str) -> (error: SegmentError)
    ensures
        error@ == SegmentFault::ManifestInvalid(reason@),
{
    SegmentError::ManifestInvalid(reason.to_owned())
}

/// Whether every member of a text set is a label.
fn all_labels(set: &TextSet) -> (ok: bool)
    ensures
        ok == forall|i: int| 0 <= i < set@.len() ==> is_label(#[trigger] set@[i]),
{
    let items = set.items();
    let mut i: usize = 0;
    while i < items.len()
        invariant
            0 <= i <= items@.len(),
            crate::text::texts(items@) == set@,
            forall|k: int| 0 <= k < i ==> is_label(#[trigger] set@[k]),
        decreases items@.len() - i,
    {
        assert(set@[i as int] == items@[i as int]@);
        if !check_label(items[i].as_str()) {
            return false;
        }
        i = i + 1;
    }
    true
}

impl SegmentManifest {
    /// Checks the manifest's shape against the container flags and payload length.
    pub fn validate_shape(&self, flags: u16, compressed_length: u64) -> (result: Result<(), SegmentError>)
        ensures
            check_fault(result) == shape_fault(*self, flags, compressed_length),
    {
        if !text_equal(self.api_version.as_str(), MANIFEST_VERSION) || self.format_version != FORMAT_VERSION {
            return Err(invalid("manifest envelope or format version is unsupported"));
        }
        if !text_equal(self.schema_set_id.as_str(), SCHEMA_SET_VERSION) {
            return Err(invalid("unsupported schema_set_id"));
        }
        if self.row_count == 0 || self.row_count > MAX_ROWS {
            return Err(SegmentError::RowLimitExceeded(self.row_count));
        }
        if self.frame_count != 1 || self.compression.frames.len() != 1 {
            return Err(invalid("format v1 requires exactly one frame"));
        }
        if self.classifications.is_empty() {
            return Err(invalid("classifications must not be empty"));
        }
        if !text_equal(self.compression.codec.as_str(), "zstd") {
            return Err(invalid("compression codec must be zstd"));
        }
        if !(-7 <= self.compression.level && self.compression.level <= 22) {
            return Err(invalid("Zstandard compression level is outside -7..=22"));
        }
        let frame = &self.compression.frames[0];
        if frame.frame_index != 0 || frame.payload_offset != 0 || frame.row_start != 0 || frame.row_count
            != self.row_count || frame.compressed_bytes == 0 || frame.compressed_bytes != compressed_length {
            return Err(invalid("frame offsets, sizes, or row counts disagree"));
        }
        if frame.uncompressed_bytes == 0 || frame.uncompressed_bytes > MAX_UNCOMPRESSED_BYTES {
            return Err(SegmentError::ContentTooLarge(frame.uncompressed_bytes));
        }
        let dictionary_flag = flags % 2 == 1;
        if dictionary_flag != self.compression.dictionary.is_some() {
            return Err(invalid("dictionary flag and locator disagree"));
        }
        match &self.compression.dictionary {
            Some(locator) => {
                if !check_label(locator.family.as_str()) || locator.version == 0 || !check_lower_hex_digest(
                    locator.digest.as_str(),
                ) {
                    return Err(invalid("dictionary locator is malformed"));
                }
            },
            None => {},
        }
        if !all_labels(&self.classifications) {
            return Err(invalid("classification label is malformed"));
        }
        if (flags / 2) % 2 == 0 {
            return Err(invalid("format v1 requires the uncompressed content digest flag"));
        }
        let mut expected_segment_id = "seg-".to_owned();
        expected_segment_id.append(self.integrity.content_sha256.as_str());
        if !text_equal(self.segment_id.as_str(), expected_segment_id.as_str()) || !check_lower_hex_digest(
            self.integrity.payload_sha256.as_str(),
        ) || !check_lower_hex_digest(self.integrity.content_sha256.as_str()) {
            return Err(invalid("segment identity or integrity digest is malformed"));
        }
        validate_ranges(&self.ordering_bounds)
    }
}

/// A range entry as plain values: a key, the least and the greatest value seen.
pub type RangeView = (Seq<Seq<char>>, u64, u64);

/// A keyed value as plain values.
pub type PointView = (Seq<Seq<char>>, u64);

/// Keys strictly increase along the entries.
#[verifier::opaque]
pub open spec fn ranges_sorted(entries: Seq<RangeView>) -> bool {
    forall|i: int, j: int| 0 <= i < j < entries.len() ==> keys_lt(#[trigger] entries[i].0, #[trigger] entries[j].0)
}

/// Each entry's least value is the value of a point with its key.
#[verifier::opaque]
pub open spec fn ranges_min_attained(entries: Seq<RangeView>, points: Seq<PointView>) -> bool {
    forall|i: int|
        0 <= i < entries.len() ==> exists|k: int|
            0 <= k < points.len() && (#[trigger] points[k]).0 == (#[trigger] entries[i]).0 && points[k].1
                == entries[i].1
}

/// Each entry's greatest value is the value of a point with its key.
#[verifier::opaque]
pub open spec fn ranges_max_attained(entries: Seq<RangeView>, points: Seq<PointView>) -> bool {
    forall|i: int|
        0 <= i < entries.len() ==> exists|k: int|
            0 <= k < points.len() && (#[trigger] points[k]).0 == (#[trigger] entries[i]).0 && points[k].1
                == entries[i].2
}

/// Every point's value lies within the range of the entry with its key.
#[verifier::opaque]
pub open spec fn ranges_bounded(entries: Seq<RangeView>, points: Seq<PointView>) -> bool {
    forall|i: int, k: int|
        0 <= i < entries.len() && 0 <= k < points.len() && (#[trigger] points[k]).0 == (
        #[trigger] entries[i]).0 ==> entries[i].1 <= points[k].1 <= entries[i].2
}

/// Every point's key has an entry.
#[verifier::opaque]
pub open spec fn ranges_cover(entries: Seq<RangeView>, points: Seq<PointView>) -> bool {
    forall|k: int|
        0 <= k < points.len() ==> exists|i: int|
            0 <= i < entries.len() && (#[trigger] entries[i]).0 == (#[trigger] points[k]).0
}

/// `entries` are, in increasing key order, one per key that occurs among the
/// points, each with the least and the greatest value the points give that key.
#[verifier::opaque]
pub open spec fn describes_ranges(entries: Seq<RangeView>, points: Seq<PointView>) -> bool {
    &&& ranges_sorted(entries)
    &&& ranges_min_attained(entries, points)
    &&& ranges_max_attained(entries, points)
    &&& ranges_bounded(entries, points)
    &&& ranges_cover(entries, points)
}

/// One entry of a range table.
struct KeyRange {
    key: Vec<String>,
    min: u64,
    max: u64,
}

spec fn range_view(e: KeyRange) -> RangeView {
    (texts(e.key@), e.min, e.max)
}

spec fn table_view(t: Seq<KeyRange>) -> Seq<RangeView> {
    t.map_values(|e: KeyRange| range_view(e))
}

proof fn lemma_update_range_part0(
    before: Seq<RangeView>,
    after: Seq<RangeView>,
    points: Seq<PointView>,
    k: Seq<Seq<char>>,
    value: u64,
    p: int,
)
    requires
        ranges_sorted(before),
        0 <= p < before.len(),
        before[p].0 == k,
        after == before.update(
            p,
            (k, if value < before[p].1 { value } else { before[p].1 }, if value > before[p].2 {
                value
            } else {
                before[p].2
            }),
        ),
    ensures
        ({
            let pts = points.push((k, value));
            ranges_sorted(after)
        }),
{
    reveal(ranges_sorted);
    let pts = points.push((k, value));
    let pi = p;
    assert(after.len() == before.len());
    assert(after[pi].0 == k);
    assert forall|i: int| 0 <= i < after.len() && i != pi implies after[i] == before[i] by {}
    assert forall|i: int, j: int| 0 <= i < j < after.len() implies keys_lt(
        #[trigger] after[i].0,
        #[trigger] after[j].0,
    ) by {
        assert(after[i].0 == before[i].0 && after[j].0 == before[j].0);
    }
}

proof fn lemma_update_range_part1(
    before: Seq<RangeView>,
    after: Seq<RangeView>,
    points: Seq<PointView>,
    k: Seq<Seq<char>>,
    value: u64,
    p: int,
)
    requires
        ranges_min_attained(before, points),
        0 <= p < before.len(),
        before[p].0 == k,
        after == before.update(
            p,
            (k, if value < before[p].1 { value } else { before[p].1 }, if value > before[p].2 {
                value
            } else {
                before[p].2
            }),
        ),
    ensures
        ({
            let pts = points.push((k, value));
            ranges_min_attained(after, pts)
        }),
{
    reveal(ranges_min_attained);
    let pts = points.push((k, value));
    let pi = p;
    assert(after.len() == before.len());
    assert(after[pi].0 == k);
    assert forall|i: int| 0 <= i < after.len() && i != pi implies after[i] == before[i] by {}
    assert forall|i: int| 0 <= i < after.len() implies exists|m: int|
        0 <= m < pts.len() && (#[trigger] pts[m]).0 == (#[trigger] after[i]).0 && pts[m].1 == after[i].1 by {
        if i == pi {
            if value < before[p].1 {
                assert(pts[points.len() as int] == (k, value));
            } else {
                let m = choose|m: int|
                    0 <= m < points.len() && (#[trigger] points[m]).0 == (#[trigger] before[i]).0
                        && points[m].1 == before[i].1;
                assert(pts[m] == points[m]);
            }
        } else {
            let m = choose|m: int|
                0 <= m < points.len() && (#[trigger] points[m]).0 == (#[trigger] before[i]).0
                    && points[m].1 == before[i].1;
            assert(pts[m] == points[m]);
        }
    }
}

proof fn lemma_update_range_part2(
    before: Seq<RangeView>,
    after: Seq<RangeView>,
    points: Seq<PointView>,
    k: Seq<Seq<char>>,
    value: u64,
    p: int,
)
    requires
        ranges_max_attained(before, points),
        0 <= p < before.len(),
        before[p].0 == k,
        after == before.update(
            p,
            (k, if value < before[p].1 { value } else { before[p].1 }, if value > before[p].2 {
                value
            } else {
                before[p].2
            }),
        ),
    ensures
        ({
            let pts = points.push((k, value));
            ranges_max_attained(after, pts)
        }),
{
    reveal(ranges_max_attained);
    let pts = points.push((k, value));
    let pi = p;
    assert(after.len() == before.len());
    assert(after[pi].0 == k);
    assert forall|i: int| 0 <= i < after.len() && i != pi implies after[i] == before[i] by {}
    assert forall|i: int| 0 <= i < after.len() implies exists|m: int|
        0 <= m < pts.len() && (#[trigger] pts[m]).0 == (#[trigger] after[i]).0 && pts[m].1 == after[i].2 by {
        if i == pi {
            if value > before[p].2 {
                assert(pts[points.len() as int] == (k, value));
            } else {
                let m = choose|m: int|
                    0 <= m < points.len() && (#[trigger] points[m]).0 == (#[trigger] before[i]).0
                        && points[m].1 == before[i].2;
                assert(pts[m] == points[m]);
            }
        } else {
            let m = choose|m: int|
                0 <= m < points.len() && (#[trigger] points[m]).0 == (#[trigger] before[i]).0
                    && points[m].1 == before[i].2;
            assert(pts[m] == points[m]);
        }
    }
}

proof fn lemma_update_range_part3(
    before: Seq<RangeView>,
    after: Seq<RangeView>,
    points: Seq<PointView>,
    k: Seq<Seq<char>>,
    value: u64,
    p: int,
)
    requires
        ranges_sorted(before),
        ranges_bounded(before, points),
        ranges_cover(before, points),
        0 <= p < before.len(),
        before[p].0 == k,
        after == before.update(
            p,
            (k, if value < before[p].1 { value } else { before[p].1 }, if value > before[p].2 {
                value
            } else {
                before[p].2
            }),
        ),
    ensures
        ({
            let pts = points.push((k, value));
            ranges_bounded(after, pts)
        }),
{
    reveal(ranges_sorted);
    reveal(ranges_bounded);
    reveal(ranges_cover);
    let pts = points.push((k, value));
    let pi = p;
    assert(after.len() == before.len());
    assert(after[pi].0 == k);
    assert forall|i: int| 0 <= i < after.len() && i != pi implies after[i] == before[i] by {}
    assert forall|i: int, m: int|
        0 <= i < after.len() && 0 <= m < pts.len() && (#[trigger] pts[m]).0 == (#[trigger] after[i]).0
        implies after[i].1 <= pts[m].1 <= after[i].2 by {
        if m < points.len() {
            assert(pts[m] == points[m]);
            assert(before[i].1 <= points[m].1 <= before[i].2);
        } else {
            if i != pi {
                lemma_keys_lt_irreflexive(k);
                if i < pi {
                    assert(keys_lt(before[i].0, before[pi].0));
                } else {
                    assert(keys_lt(before[pi].0, before[i].0));
                }
            }
        }
    }
}

proof fn lemma_update_range_part4(
    before: Seq<RangeView>,
    after: Seq<RangeView>,
    points: Seq<PointView>,
    k: Seq<Seq<char>>,
    value: u64,
    p: int,
)
    requires
        ranges_cover(before, points),
        0 <= p < before.len(),
        before[p].0 == k,
        after == before.update(
            p,
            (k, if value < before[p].1 { value } else { before[p].1 }, if value > before[p].2 {
                value
            } else {
                before[p].2
            }),
        ),
    ensures
        ({
            let pts = points.push((k, value));
            ranges_cover(after, pts)
        }),
{
    reveal(ranges_cover);
    let pts = points.push((k, value));
    let pi = p;
    assert(after.len() == before.len());
    assert(after[pi].0 == k);
    assert forall|i: int| 0 <= i < after.len() && i != pi implies after[i] == before[i] by {}
    assert forall|m: int| 0 <= m < pts.len() implies exists|i: int|
        0 <= i < after.len() && (#[trigger] after[i]).0 == (#[trigger] pts[m]).0 by {
        if m < points.len() {
            assert(pts[m] == points[m]);
            let i = choose|i: int| 0 <= i < before.len() && (#[trigger] before[i]).0 == (#[trigger] points[m]).0;
            assert(after[i].0 == before[i].0);
        } else {
            assert(after[pi].0 == pts[m].0);
        }
    }}

/// Folding a value into the range of a key the table already holds.
proof fn lemma_update_range(
    before: Seq<RangeView>,
    after: Seq<RangeView>,
    points: Seq<PointView>,
    k: Seq<Seq<char>>,
    value: u64,
    p: int,
)
    requires
        describes_ranges(before, points),
        0 <= p < before.len(),
        before[p].0 == k,
        after == before.update(
            p,
            (k, if value < before[p].1 { value } else { before[p].1 }, if value > before[p].2 {
                value
            } else {
                before[p].2
            }),
        ),
    ensures
        describes_ranges(after, points.push((k, value))),
{
    reveal(describes_ranges);
    lemma_update_range_part0(before, after, points, k, value, p);
    lemma_update_range_part1(before, after, points, k, value, p);
    lemma_update_range_part2(before, after, points, k, value, p);
    lemma_update_range_part3(before, after, points, k, value, p);
    lemma_update_range_part4(before, after, points, k, value, p);
}

proof fn lemma_insert_range_part0(
    before: Seq<RangeView>,
    after: Seq<RangeView>,
    points: Seq<PointView>,
    k: Seq<Seq<char>>,
    value: u64,
    p: int,
)
    requires
        ranges_sorted(before),
        0 <= p <= before.len(),
        forall|i: int| 0 <= i < p ==> keys_lt(#[trigger] before[i].0, k),
        p < before.len() ==> keys_lt(k, before[p].0),
        after == before.insert(p, (k, value, value)),
    ensures
        ({
            let pts = points.push((k, value));
            ranges_sorted(after)
        }),
{
    reveal(ranges_sorted);
    let pts = points.push((k, value));
    let pi = p;
    assert(after.len() == before.len() + 1);
    assert(after[pi] == (k, value, value));
    assert forall|i: int| 0 <= i < pi implies after[i] == before[i] by {}
    assert forall|i: int| pi < i < after.len() implies after[i] == before[i - 1] by {}
    assert forall|i: int, j: int| 0 <= i < j < after.len() implies keys_lt(
        #[trigger] after[i].0,
        #[trigger] after[j].0,
    ) by {
        if j < pi {
        } else if j == pi {
        } else if i < pi {
            assert(after[j] == before[j - 1]);
            if j - 1 > pi {
                lemma_keys_lt_transitive(k, before[pi].0, before[j - 1].0);
            }
            lemma_keys_lt_transitive(before[i].0, k, before[j - 1].0);
        } else if i == pi {
            assert(after[j] == before[j - 1]);
            if j - 1 > pi {
                lemma_keys_lt_transitive(k, before[pi].0, before[j - 1].0);
            }
        } else {
            assert(after[i] == before[i - 1] && after[j] == before[j - 1]);
        }
    }
}

proof fn lemma_insert_range_part1(
    before: Seq<RangeView>,
    after: Seq<RangeView>,
    points: Seq<PointView>,
    k: Seq<Seq<char>>,
    value: u64,
    p: int,
)
    requires
        ranges_min_attained(before, points),
        0 <= p <= before.len(),
        forall|i: int| 0 <= i < p ==> keys_lt(#[trigger] before[i].0, k),
        p < before.len() ==> keys_lt(k, before[p].0),
        after == before.insert(p, (k, value, value)),
    ensures
        ({
            let pts = points.push((k, value));
            ranges_min_attained(after, pts)
        }),
{
    reveal(ranges_min_attained);
    let pts = points.push((k, value));
    let pi = p;
    assert(after.len() == before.len() + 1);
    assert(after[pi] == (k, value, value));
    assert forall|i: int| 0 <= i < pi implies after[i] == before[i] by {}
    assert forall|i: int| pi < i < after.len() implies after[i] == before[i - 1] by {}
    assert forall|i: int| 0 <= i < after.len() implies exists|m: int|
        0 <= m < pts.len() && (#[trigger] pts[m]).0 == (#[trigger] after[i]).0 && pts[m].1 == after[i].1 by {
        if i == pi {
            assert(pts[points.len() as int] == (k, value));
        } else {
            let j = if i < pi { i } else { i - 1 };
            assert(after[i] == before[j]);
            let m = choose|m: int|
                0 <= m < points.len() && (#[trigger] points[m]).0 == (#[trigger] before[j]).0
                    && points[m].1 == before[j].1;
            assert(pts[m] == points[m]);
        }
    }
}

proof fn lemma_insert_range_part2(
    before: Seq<RangeView>,
    after: Seq<RangeView>,
    points: Seq<PointView>,
    k: Seq<Seq<char>>,
    value: u64,
    p: int,
)
    requires
        ranges_max_attained(before, points),
        0 <= p <= before.len(),
        forall|i: int| 0 <= i < p ==> keys_lt(#[trigger] before[i].0, k),
        p < before.len() ==> keys_lt(k, before[p].0),
        after == before.insert(p, (k, value, value)),
    ensures
        ({
            let pts = points.push((k, value));
            ranges_max_attained(after, pts)
        }),
{
    reveal(ranges_max_attained);
    let pts = points.push((k, value));
    let pi = p;
    assert(after.len() == before.len() + 1);
    assert(after[pi] == (k, value, value));
    assert forall|i: int| 0 <= i < pi implies after[i] == before[i] by {}
    assert forall|i: int| pi < i < after.len() implies after[i] == before[i - 1] by {}
    assert forall|i: int| 0 <= i < after.len() implies exists|m: int|
        0 <= m < pts.len() && (#[trigger] pts[m]).0 == (#[trigger] after[i]).0 && pts[m].1 == after[i].2 by {
        if i == pi {
            assert(pts[points.len() as int] == (k, value));
        } else {
            let j = if i < pi { i } else { i - 1 };
            assert(after[i] == before[j]);
            let m = choose|m: int|
                0 <= m < points.len() && (#[trigger] points[m]).0 == (#[trigger] before[j]).0
                    && points[m].1 == before[j].2;
            assert(pts[m] == points[m]);
        }
    }
}

proof fn lemma_insert_range_part3(
    before: Seq<RangeView>,
    after: Seq<RangeView>,
    points: Seq<PointView>,
    k: Seq<Seq<char>>,
    value: u64,
    p: int,
)
    requires
        ranges_sorted(before),
        ranges_bounded(before, points),
        ranges_cover(before, points),
        0 <= p <= before.len(),
        forall|i: int| 0 <= i < p ==> keys_lt(#[trigger] before[i].0, k),
        p < before.len() ==> keys_lt(k, before[p].0),
        after == before.insert(p, (k, value, value)),
    ensures
        ({
            let pts = points.push((k, value));
            ranges_bounded(after, pts)
        }),
{
    reveal(ranges_sorted);
    reveal(ranges_bounded);
    reveal(ranges_cover);
    let pts = points.push((k, value));
    let pi = p;
    assert(after.len() == before.len() + 1);
    assert(after[pi] == (k, value, value));
    assert forall|i: int| 0 <= i < pi implies after[i] == before[i] by {}
    assert forall|i: int| pi < i < after.len() implies after[i] == before[i - 1] by {}
    assert forall|i: int, m: int|
        0 <= i < after.len() && 0 <= m < pts.len() && (#[trigger] pts[m]).0 == (#[trigger] after[i]).0
        implies after[i].1 <= pts[m].1 <= after[i].2 by {
        if m < points.len() {
            assert(pts[m] == points[m]);
            if i == pi {
                let j = choose|j: int| 0 <= j < before.len() && (#[trigger] before[j]).0 == (#[trigger] points[m]).0;
                if j < pi {
                    lemma_keys_lt_irreflexive(k);
                } else {
                    if j > pi {
                        lemma_keys_lt_transitive(k, before[pi].0, before[j].0);
                    }
                    lemma_keys_lt_irreflexive(k);
                }
            } else {
                let j = if i < pi { i } else { i - 1 };
                assert(after[i] == before[j]);
                assert(before[j].1 <= points[m].1 <= before[j].2);
            }
        } else {
            if i != pi {
                let j = if i < pi { i } else { i - 1 };
                assert(after[i] == before[j]);
                lemma_keys_lt_irreflexive(k);
                if j >= pi {
                    if j > pi {
                        lemma_keys_lt_transitive(k, before[pi].0, before[j].0);
                    }
                }
            }
        }
    }
}

proof fn lemma_insert_range_part4(
    before: Seq<RangeView>,
    after: Seq<RangeView>,
    points: Seq<PointView>,
    k: Seq<Seq<char>>,
    value: u64,
    p: int,
)
    requires
        ranges_cover(before, points),
        0 <= p <= before.len(),
        forall|i: int| 0 <= i < p ==> keys_lt(#[trigger] before[i].0, k),
        p < before.len() ==> keys_lt(k, before[p].0),
        after == before.insert(p, (k, value, value)),
    ensures
        ({
            let pts = points.push((k, value));
            ranges_cover(after, pts)
        }),
{
    reveal(ranges_cover);
    let pts = points.push((k, value));
    let pi = p;
    assert(after.len() == before.len() + 1);
    assert(after[pi] == (k, value, value));
    assert forall|i: int| 0 <= i < pi implies after[i] == before[i] by {}
    assert forall|i: int| pi < i < after.len() implies after[i] == before[i - 1] by {}
    assert forall|m: int| 0 <= m < pts.len() implies exists|i: int|
        0 <= i < after.len() && (#[trigger] after[i]).0 == (#[trigger] pts[m]).0 by {
        if m < points.len() {
            assert(pts[m] == points[m]);
            let j = choose|j: int| 0 <= j < before.len() && (#[trigger] before[j]).0 == (#[trigger] points[m]).0;
            if j < pi {
                assert(after[j] == before[j]);
            } else {
                assert(after[j + 1] == before[j]);
            }
        } else {
            assert(after[pi].0 == pts[m].0);
        }
    }}

/// Adding the range of a key the table does not hold, at its place in key order.
proof fn lemma_insert_range(
    before: Seq<RangeView>,
    after: Seq<RangeView>,
    points: Seq<PointView>,
    k: Seq<Seq<char>>,
    value: u64,
    p: int,
)
    requires
        describes_ranges(before, points),
        0 <= p <= before.len(),
        forall|i: int| 0 <= i < p ==> keys_lt(#[trigger] before[i].0, k),
        p < before.len() ==> keys_lt(k, before[p].0),
        after == before.insert(p, (k, value, value)),
    ensures
        describes_ranges(after, points.push((k, value))),
{
    reveal(describes_ranges);
    lemma_insert_range_part0(before, after, points, k, value, p);
    lemma_insert_range_part1(before, after, points, k, value, p);
    lemma_insert_range_part2(before, after, points, k, value, p);
    lemma_insert_range_part3(before, after, points, k, value, p);
    lemma_insert_range_part4(before, after, points, k, value, p);
}

/// Adds one keyed value to a range table.
fn absorb_point(table: &mut Vec<KeyRange>, key: Vec<String>, value: u64, Ghost(points): Ghost<Seq<PointView>>)
    requires
        describes_ranges(table_view(old(table)@), points),
    ensures
        describes_ranges(table_view(final(table)@), points.push((texts(key@), value))),
{
    let ghost before = table_view(table@);
    let ghost k = texts(key@);
    let mut p: usize = 0;
    while p < table.len() && compare_keys(&table[p].key, &key) == TextOrder::Less
        invariant
            0 <= p <= table@.len(),
            before == table_view(table@),
            k == texts(key@),
            forall|i: int| 0 <= i < p ==> keys_lt(#[trigger] before[i].0, k),
        decreases table@.len() - p,
    {
        p = p + 1;
    }
    let found = p < table.len() && compare_keys(&table[p].key, &key) == TextOrder::Equal;
    if found {
        let old_min = table[p].min;
        let old_max = table[p].max;
        let entry = KeyRange {
            key: clone_texts(&table[p].key),
            min: if value < old_min { value } else { old_min },
            max: if value > old_max { value } else { old_max },
        };
        table.set(p, entry);
        proof {
            assert(table_view(table@) =~= before.update(
                p as int,
                (k, if value < old_min { value } else { old_min }, if value > old_max { value } else { old_max }),
            ));
            lemma_update_range(before, table_view(table@), points, k, value, p as int);
        }
    } else {
        proof {
            if p < table@.len() {
                lemma_keys_lt_total(before[p as int].0, k);
            }
        }
        table.insert(p, KeyRange { key, min: value, max: value });
        proof {
            assert(table_view(table@) =~= before.insert(p as int, (k, value, value)));
            lemma_insert_range(before, table_view(table@), points, k, value, p as int);
        }
    }
}

/// The producer stream position a record carries, keyed by producer and stream.
pub open spec fn position_point(r: EvidenceRecord) -> Option<PointView> {
    match r {
        EvidenceRecord::Observation(o) => match o.producer_sequence {
            Some(n) => Some((seq![o.producer.producer_id@, o.producer.stream_id@], n)),
            None => None,
        },
        EvidenceRecord::Correction(c) => match c.producer_sequence {
            Some(n) => Some((seq![c.producer.producer_id@, c.producer.stream_id@], n)),
            None => None,
        },
        EvidenceRecord::Frontier(f) => match f.producer_sequence_through {
            Some(n) => Some((seq![f.producer.producer_id@, f.producer.stream_id@], n)),
            None => None,
        },
    }
}

/// The logical clock position a record carries, keyed by clock.
pub open spec fn clock_point(r: EvidenceRecord) -> Option<PointView> {
    let t = match r {
        EvidenceRecord::Observation(o) => o.logical_time,
        EvidenceRecord::Correction(c) => c.logical_time,
        EvidenceRecord::Frontier(f) => f.logical_time_through,
    };
    match t {
        Some(t) => Some((seq![t.clock_id@], t.counter)),
        None => None,
    }
}

/// The source time a record carries.
pub open spec fn observed_at_of(r: EvidenceRecord) -> Option<Timestamp> {
    match r {
        EvidenceRecord::Observation(o) => o.observed_at,
        _ => None,
    }
}

/// The collector receipt time a record carries.
pub open spec fn observed_by_at_of(r: EvidenceRecord) -> Option<Timestamp> {
    match r {
        EvidenceRecord::Observation(o) => Some(o.observed_by_at),
        EvidenceRecord::Correction(c) => Some(c.observed_by_at),
        EvidenceRecord::Frontier(_) => None,
    }
}

/// The admission time a record carries (a frontier's cutoff).
pub open spec fn recorded_at_of(r: EvidenceRecord) -> Option<Timestamp> {
    match r {
        EvidenceRecord::Observation(o) => Some(o.recorded_at),
        EvidenceRecord::Correction(c) => Some(c.recorded_at),
        EvidenceRecord::Frontier(f) => Some(f.as_of_recorded_at),
    }
}

/// The values `f` gives the records, in record order, skipping records it gives none.
pub open spec fn present_values<T>(rs: Seq<EvidenceRecord>, f: spec_fn(EvidenceRecord) -> Option<T>) -> Seq<T>
    decreases rs.len(),
{
    if rs.len() == 0 {
        Seq::empty()
    } else {
        let before = present_values(rs.drop_last(), f);
        match f(rs.last()) {
            Some(v) => before.push(v),
            None => before,
        }
    }
}

/// `i` holds the earliest instant, and no earlier entry holds it.
pub open spec fn first_least(ts: Seq<Timestamp>, i: int) -> bool {
    &&& 0 <= i < ts.len()
    &&& forall|k: int| 0 <= k < ts.len() ==> instant_of(ts[i]) <= instant_of(#[trigger] ts[k])
    &&& forall|k: int| 0 <= k < i ==> instant_of(#[trigger] ts[k]) > instant_of(ts[i])
}

/// `j` holds the latest instant, and no later entry holds it.
pub open spec fn last_greatest(ts: Seq<Timestamp>, j: int) -> bool {
    &&& 0 <= j < ts.len()
    &&& forall|k: int| 0 <= k < ts.len() ==> instant_of(#[trigger] ts[k]) <= instant_of(ts[j])
    &&& forall|k: int| j < k < ts.len() ==> instant_of(#[trigger] ts[k]) < instant_of(ts[j])
}

/// The range of timestamps ordered by instant, ties kept in input order: the first
/// of the earliest and the last of the latest, or nothing for no timestamps.
pub open spec fn describes_time_range(range: Option<TimeRange>, ts: Seq<Timestamp>) -> bool {
    match range {
        None => ts.len() == 0,
        Some(r) => exists|i: int, j: int|
            first_least(ts, i) && last_greatest(ts, j) && r.min@ == (#[trigger] ts[i])@ && r.max@ == (
            #[trigger] ts[j])@,
    }
}

/// A time range being gathered, with the instants of its ends.
struct TimeGather {
    range: Option<TimeRange>,
    min_at: i128,
    max_at: i128,
}

spec fn gathers(g: TimeGather, ts: Seq<Timestamp>) -> bool {
    &&& describes_time_range(g.range, ts)
    &&& g.range matches Some(r) ==> g.min_at == instant_of(r.min) && g.max_at == instant_of(r.max)
}

/// Adds one timestamp to a time range being gathered.
fn gather_time(g: &mut TimeGather, t: &Timestamp, Ghost(ts): Ghost<Seq<Timestamp>>)
    requires
        gathers(*old(g), ts),
    ensures
        gathers(*final(g), ts.push(*t)),
{
    let at = t.instant();
    let ghost next = ts.push(*t);
    let ghost n = ts.len() as int;
    proof {
        assert(next[n] == *t);
    }
    match &g.range {
        None => {
            g.range = Some(TimeRange { min: t.clone(), max: t.clone() });
            g.min_at = at;
            g.max_at = at;
            proof {
                assert(first_least(next, 0));
                assert(last_greatest(next, 0));
            }
        },
        Some(r) => {
            let ghost (i, j) = choose|i: int, j: int|
                first_least(ts, i) && last_greatest(ts, j) && r.min@ == (#[trigger] ts[i])@ && r.max@ == (
                #[trigger] ts[j])@;
            let new_min = if at < g.min_at { t.clone() } else { r.min.clone() };
            let new_max = if at >= g.max_at { t.clone() } else { r.max.clone() };
            let ghost ni = if at < g.min_at { n } else { i };
            let ghost nj = if at >= g.max_at { n } else { j };
            proof {
                assert forall|k: int| 0 <= k < n implies next[k] == ts[k] by {}
                assert(first_least(next, ni)) by {
                    assert forall|k: int| 0 <= k < next.len() implies instant_of(next[ni]) <= instant_of(
                        #[trigger] next[k],
                    ) by {
                        if k < n {
                            assert(instant_of(ts[i]) <= instant_of(ts[k]));
                        }
                    }
                    assert forall|k: int| 0 <= k < ni implies instant_of(#[trigger] next[k]) > instant_of(next[ni]) by {
                        if k < n {
                            assert(instant_of(ts[i]) <= instant_of(ts[k]));
                            if ni == i {
                                assert(instant_of(ts[k]) > instant_of(ts[i]));
                            }
                        }
                    }
                }
                assert(last_greatest(next, nj)) by {
                    assert forall|k: int| 0 <= k < next.len() implies instant_of(#[trigger] next[k]) <= instant_of(
                        next[nj],
                    ) by {
                        if k < n {
                            assert(instant_of(ts[k]) <= instant_of(ts[j]));
                        }
                    }
                    assert forall|k: int| nj < k < next.len() implies instant_of(#[trigger] next[k]) < instant_of(next[nj]) by {
                        if k < n {
                            assert(instant_of(ts[k]) < instant_of(ts[j]));
                        }
                    }
                }
            }
            let new_min_at = if at < g.min_at { at } else { g.min_at };
            let new_max_at = if at >= g.max_at { at } else { g.max_at };
            g.range = Some(TimeRange { min: new_min, max: new_max });
            g.min_at = new_min_at;
            g.max_at = new_max_at;
            proof {
                let r2 = g.range->0;
                assert(r2.min@ == next[ni]@ && r2.max@ == next[nj]@);
            }
        },
    }
}

/// The producer stream positions of records, in record order.
pub open spec fn positions_of(rs: Seq<EvidenceRecord>) -> Seq<PointView> {
    present_values(rs, |r: EvidenceRecord| position_point(r))
}

/// The logical clock positions of records, in record order.
pub open spec fn clocks_of(rs: Seq<EvidenceRecord>) -> Seq<PointView> {
    present_values(rs, |r: EvidenceRecord| clock_point(r))
}

/// The source times of records, in record order.
pub open spec fn observed_at_times(rs: Seq<EvidenceRecord>) -> Seq<Timestamp> {
    present_values(rs, |r: EvidenceRecord| observed_at_of(r))
}

/// The collector receipt times of records, in record order.
pub open spec fn observed_by_at_times(rs: Seq<EvidenceRecord>) -> Seq<Timestamp> {
    present_values(rs, |r: EvidenceRecord| observed_by_at_of(r))
}

/// The admission times of records, in record order.
pub open spec fn recorded_at_times(rs: Seq<EvidenceRecord>) -> Seq<Timestamp> {
    present_values(rs, |r: EvidenceRecord| recorded_at_of(r))
}

/// Producer sequence ranges as plain range entries.
pub open spec fn sequence_ranges_view(v: Seq<ProducerSequenceRange>) -> Seq<RangeView> {
    v.map_values(|r: ProducerSequenceRange| (seq![r.producer_id@, r.stream_id@], r.min, r.max))
}

/// Logical clock ranges as plain range entries.
pub open spec fn clock_ranges_view(v: Seq<LogicalRange>) -> Seq<RangeView> {
    v.map_values(|r: LogicalRange| (seq![r.clock_id@], r.min, r.max))
}

/// The pruning bounds of a record batch: for each producer stream and each logical
/// clock, in key order, the least and greatest position the records hold; and the
/// range of each time axis.
pub open spec fn bounds_describe(b: OrderingBounds, rs: Seq<EvidenceRecord>) -> bool {
    &&& describes_ranges(sequence_ranges_view(b.producer_sequences@), positions_of(rs))
    &&& describes_ranges(clock_ranges_view(b.logical_clocks@), clocks_of(rs))
    &&& describes_time_range(b.observed_at, observed_at_times(rs))
    &&& describes_time_range(b.observed_by_at, observed_by_at_times(rs))
    &&& describes_time_range(b.recorded_at, recorded_at_times(rs))
}

/// Every key a point list of positions or clocks holds has the given length.
pub open spec fn keys_have_length(points: Seq<PointView>, n: nat) -> bool {
    forall|k: int| 0 <= k < points.len() ==> (#[trigger] points[k]).0.len() == n
}

proof fn lemma_point_key_lengths(rs: Seq<EvidenceRecord>)
    ensures
        keys_have_length(positions_of(rs), 2),
        keys_have_length(clocks_of(rs), 1),
    decreases rs.len(),
{
    if rs.len() > 0 {
        lemma_point_key_lengths(rs.drop_last());
        let f = |r: EvidenceRecord| position_point(r);
        let g = |r: EvidenceRecord| clock_point(r);
        assert(positions_of(rs) == present_values(rs, f));
        assert(clocks_of(rs) == present_values(rs, g));
    }
}

proof fn lemma_entry_key_lengths(entries: Seq<RangeView>, points: Seq<PointView>, n: nat)
    requires
        describes_ranges(entries, points),
        keys_have_length(points, n),
    ensures
        forall|i: int| 0 <= i < entries.len() ==> (#[trigger] entries[i]).0.len() == n,
{
    reveal(describes_ranges);
    reveal(ranges_min_attained);
    assert forall|i: int| 0 <= i < entries.len() implies (#[trigger] entries[i]).0.len() == n by {
        let k = choose|k: int|
            0 <= k < points.len() && (#[trigger] points[k]).0 == (#[trigger] entries[i]).0 && points[k].1
                == entries[i].1;
    }
}

/// Turns a table keyed by producer and stream into producer sequence ranges.
fn sequence_ranges(table: Vec<KeyRange>) -> (ranges: Vec<ProducerSequenceRange>)
    requires
        forall|i: int| 0 <= i < table@.len() ==> (#[trigger] table_view(table@)[i]).0.len() == 2,
    ensures
        sequence_ranges_view(ranges@) == table_view(table@),
{
    let ghost all = table_view(table@);
    let n = table.len();
    let mut rest = table;
    let mut ranges: Vec<ProducerSequenceRange> = Vec::new();
    let mut i: usize = 0;
    proof {
        assert(table_view(rest@) =~= all.subrange(0, n as int));
    }
    while i < n
        invariant
            0 <= i <= n,
            n == all.len(),
            forall|k: int| 0 <= k < n ==> (#[trigger] all[k]).0.len() == 2,
            table_view(rest@) == all.subrange(i as int, n as int),
            ranges@.len() == i,
            forall|k: int| 0 <= k < i ==> (#[trigger] sequence_ranges_view(ranges@)[k]) == all[k],
        decreases n - i,
    {
        proof {
            assert(table_view(rest@).len() == rest@.len());
            assert(table_view(rest@)[0] == range_view(rest@[0]));
            assert(all.subrange(i as int, n as int)[0] == all[i as int]);
        }
        let ghost before = rest@;
        let e = rest.remove(0);
        proof {
            assert(range_view(e) == all[i as int]);
            assert forall|k: int| 0 <= k < rest@.len() implies table_view(rest@)[k] == all.subrange(
                i + 1,
                n as int,
            )[k] by {
                assert(rest@[k] == before[k + 1]);
                assert(table_view(before)[k + 1] == all.subrange(i as int, n as int)[k + 1]);
            }
            assert(table_view(rest@) =~= all.subrange(i + 1, n as int));
        }
        let key = e.key;
        let producer_id = key[0].clone();
        let stream_id = key[1].clone();
        let ghost prior = ranges@;
        ranges.push(ProducerSequenceRange { producer_id, stream_id, min: e.min, max: e.max });
        proof {
            assert forall|k: int| 0 <= k < i implies #[trigger] sequence_ranges_view(ranges@)[k] == all[k] by {
                assert(ranges@[k] == prior[k]);
                assert(sequence_ranges_view(prior)[k] == all[k]);
            }
            assert(texts(key@) =~= seq![producer_id@, stream_id@]);
            assert(sequence_ranges_view(ranges@)[i as int] == all[i as int]);
        }
        i = i + 1;
    }
    assert(sequence_ranges_view(ranges@) =~= all);
    ranges
}

/// Turns a table keyed by clock into logical clock ranges.
fn clock_ranges(table: Vec<KeyRange>) -> (ranges: Vec<LogicalRange>)
    requires
        forall|i: int| 0 <= i < table@.len() ==> (#[trigger] table_view(table@)[i]).0.len() == 1,
    ensures
        clock_ranges_view(ranges@) == table_view(table@),
{
    let ghost all = table_view(table@);
    let n = table.len();
    let mut rest = table;
    let mut ranges: Vec<LogicalRange> = Vec::new();
    let mut i: usize = 0;
    proof {
        assert(table_view(rest@) =~= all.subrange(0, n as int));
    }
    while i < n
        invariant
            0 <= i <= n,
            n == all.len(),
            forall|k: int| 0 <= k < n ==> (#[trigger] all[k]).0.len() == 1,
            table_view(rest@) == all.subrange(i as int, n as int),
            ranges@.len() == i,
            forall|k: int| 0 <= k < i ==> (#[trigger] clock_ranges_view(ranges@)[k]) == all[k],
        decreases n - i,
    {
        proof {
            assert(table_view(rest@).len() == rest@.len());
            assert(table_view(rest@)[0] == range_view(rest@[0]));
            assert(all.subrange(i as int, n as int)[0] == all[i as int]);
        }
        let ghost before = rest@;
        let e = rest.remove(0);
        proof {
            assert(range_view(e) == all[i as int]);
            assert forall|k: int| 0 <= k < rest@.len() implies table_view(rest@)[k] == all.subrange(
                i + 1,
                n as int,
            )[k] by {
                assert(rest@[k] == before[k + 1]);
                assert(table_view(before)[k + 1] == all.subrange(i as int, n as int)[k + 1]);
            }
            assert(table_view(rest@) =~= all.subrange(i + 1, n as int));
        }
        let key = e.key;
        let clock_id = key[0].clone();
        let ghost prior = ranges@;
        ranges.push(LogicalRange { clock_id, min: e.min, max: e.max });
        proof {
            assert forall|k: int| 0 <= k < i implies #[trigger] clock_ranges_view(ranges@)[k] == all[k] by {
                assert(ranges@[k] == prior[k]);
                assert(clock_ranges_view(prior)[k] == all[k]);
            }
            assert(texts(key@) =~= seq![clock_id@]);
            assert(clock_ranges_view(ranges@)[i as int] == all[i as int]);
        }
        i = i + 1;
    }
    assert(clock_ranges_view(ranges@) =~= all);
    ranges
}

proof fn lemma_bounds_step(rs: Seq<EvidenceRecord>, i: int)
    requires
        0 <= i < rs.len(),
    ensures
        positions_of(rs.subrange(0, i + 1)) == match position_point(rs[i]) {
            Some(v) => positions_of(rs.subrange(0, i)).push(v),
            None => positions_of(rs.subrange(0, i)),
        },
        clocks_of(rs.subrange(0, i + 1)) == match clock_point(rs[i]) {
            Some(v) => clocks_of(rs.subrange(0, i)).push(v),
            None => clocks_of(rs.subrange(0, i)),
        },
        observed_at_times(rs.subrange(0, i + 1)) == match observed_at_of(rs[i]) {
            Some(v) => observed_at_times(rs.subrange(0, i)).push(v),
            None => observed_at_times(rs.subrange(0, i)),
        },
        observed_by_at_times(rs.subrange(0, i + 1)) == match observed_by_at_of(rs[i]) {
            Some(v) => observed_by_at_times(rs.subrange(0, i)).push(v),
            None => observed_by_at_times(rs.subrange(0, i)),
        },
        recorded_at_times(rs.subrange(0, i + 1)) == match recorded_at_of(rs[i]) {
            Some(v) => recorded_at_times(rs.subrange(0, i)).push(v),
            None => recorded_at_times(rs.subrange(0, i)),
        },
{
    let next = rs.subrange(0, i + 1);
    assert(next.drop_last() =~= rs.subrange(0, i));
    assert(next.last() == rs[i]);
}

/// The stream position a record carries.
fn record_position(r: &EvidenceRecord) -> (position: Option<(Vec<String>, u64)>)
    ensures
        match position {
            Some((key, value)) => position_point(*r) == Some((texts(key@), value)),
            None => position_point(*r) is None,
        },
{
    let (producer, sequence) = match r {
        EvidenceRecord::Observation(o) => (&o.producer, o.producer_sequence),
        EvidenceRecord::Correction(c) => (&c.producer, c.producer_sequence),
        EvidenceRecord::Frontier(f) => (&f.producer, f.producer_sequence_through),
    };
    match sequence {
        Some(n) => {
            let key = vec![producer.producer_id.clone(), producer.stream_id.clone()];
            assert(texts(key@) =~= seq![producer.producer_id@, producer.stream_id@]);
            Some((key, n))
        },
        None => None,
    }
}

/// The logical clock position a record carries.
fn record_clock(r: &EvidenceRecord) -> (position: Option<(Vec<String>, u64)>)
    ensures
        match position {
            Some((key, value)) => clock_point(*r) == Some((texts(key@), value)),
            None => clock_point(*r) is None,
        },
{
    let time = match r {
        EvidenceRecord::Observation(o) => &o.logical_time,
        EvidenceRecord::Correction(c) => &c.logical_time,
        EvidenceRecord::Frontier(f) => &f.logical_time_through,
    };
    match time {
        Some(t) => {
            let key = vec![t.clock_id.clone()];
            assert(texts(key@) =~= seq![t.clock_id@]);
            Some((key, t.counter))
        },
        None => None,
    }
}

fn record_observed_at(r: &EvidenceRecord) -> (t: Option<&Timestamp>)
    ensures
        match t {
            Some(t) => observed_at_of(*r) == Some(*t),
            None => observed_at_of(*r) is None,
        },
{
    match r {
        EvidenceRecord::Observation(o) => match &o.observed_at {
            Some(t) => Some(t),
            None => None,
        },
        _ => None,
    }
}

fn record_observed_by_at(r: &EvidenceRecord) -> (t: Option<&Timestamp>)
    ensures
        match t {
            Some(t) => observed_by_at_of(*r) == Some(*t),
            None => observed_by_at_of(*r) is None,
        },
{
    match r {
        EvidenceRecord::Observation(o) => Some(&o.observed_by_at),
        EvidenceRecord::Correction(c) => Some(&c.observed_by_at),
        EvidenceRecord::Frontier(_) => None,
    }
}

fn record_recorded_at(r: &EvidenceRecord) -> (t: &Timestamp)
    ensures
        recorded_at_of(*r) == Some(*t),
{
    match r {
        EvidenceRecord::Observation(o) => &o.recorded_at,
        EvidenceRecord::Correction(c) => &c.recorded_at,
        EvidenceRecord::Frontier(f) => &f.as_of_recorded_at,
    }
}

proof fn lemma_no_ranges()
    ensures
        describes_ranges(Seq::<RangeView>::empty(), Seq::<PointView>::empty()),
{
    reveal(describes_ranges);
    reveal(ranges_sorted);
    reveal(ranges_min_attained);
    reveal(ranges_max_attained);
    reveal(ranges_bounded);
    reveal(ranges_cover);
}

fn gather_optional(g: &mut TimeGather, t: Option<&Timestamp>, Ghost(ts): Ghost<Seq<Timestamp>>)
    requires
        gathers(*old(g), ts),
    ensures
        gathers(
            *final(g),
            match t {
                Some(t) => ts.push(*t),
                None => ts,
            },
        ),
{
    match t {
        Some(t) => gather_time(g, t, Ghost(ts)),
        None => {},
    }
}

fn absorb_optional(
    table: &mut Vec<KeyRange>,
    point: Option<(Vec<String>, u64)>,
    Ghost(points): Ghost<Seq<PointView>>,
)
    requires
        describes_ranges(table_view(old(table)@), points),
    ensures
        describes_ranges(
            table_view(final(table)@),
            match point {
                Some((key, value)) => points.push((texts(key@), value)),
                None => points,
            },
        ),
{
    match point {
        Some((key, value)) => absorb_point(table, key, value, Ghost(points)),
        None => {},
    }
}

/// The pruning bounds of a record batch.
pub fn ordering_bounds(records: &[EvidenceRecord]) -> (bounds: OrderingBounds)
    ensures
        bounds_describe(bounds, records@),
{
    let ghost rs = records@;
    let mut sequences: Vec<KeyRange> = Vec::new();
    let mut clocks: Vec<KeyRange> = Vec::new();
    let mut observed_at = TimeGather { range: None, min_at: 0, max_at: 0 };
    let mut observed_by_at = TimeGather { range: None, min_at: 0, max_at: 0 };
    let mut recorded_at = TimeGather { range: None, min_at: 0, max_at: 0 };
    proof {
        let empty = rs.subrange(0, 0);
        assert(empty =~= Seq::<EvidenceRecord>::empty());
        lemma_no_ranges();
        assert(table_view(sequences@) =~= Seq::<RangeView>::empty());
        assert(table_view(clocks@) =~= Seq::<RangeView>::empty());
        assert(positions_of(empty) =~= Seq::<PointView>::empty());
        assert(clocks_of(empty) =~= Seq::<PointView>::empty());
    }
    let mut i: usize = 0;
    while i < records.len()
        invariant
            0 <= i <= rs.len(),
            rs == records@,
            describes_ranges(table_view(sequences@), positions_of(rs.subrange(0, i as int))),
            describes_ranges(table_view(clocks@), clocks_of(rs.subrange(0, i as int))),
            gathers(observed_at, observed_at_times(rs.subrange(0, i as int))),
            gathers(observed_by_at, observed_by_at_times(rs.subrange(0, i as int))),
            gathers(recorded_at, recorded_at_times(rs.subrange(0, i as int))),
        decreases rs.len() - i,
    {
        let r = &records[i];
        proof {
            lemma_bounds_step(rs, i as int);
        }
        let ghost prefix = rs.subrange(0, i as int);
        absorb_optional(&mut sequences, record_position(r), Ghost(positions_of(prefix)));
        absorb_optional(&mut clocks, record_clock(r), Ghost(clocks_of(prefix)));
        gather_optional(&mut observed_at, record_observed_at(r), Ghost(observed_at_times(prefix)));
        gather_optional(&mut observed_by_at, record_observed_by_at(r), Ghost(observed_by_at_times(prefix)));
        gather_time(&mut recorded_at, record_recorded_at(r), Ghost(recorded_at_times(prefix)));
        i = i + 1;
    }
    proof {
        assert(rs.subrange(0, rs.len() as int) =~= rs);
        lemma_point_key_lengths(rs);
        lemma_entry_key_lengths(table_view(sequences@), positions_of(rs), 2);
        lemma_entry_key_lengths(table_view(clocks@), clocks_of(rs), 1);
    }
    let ghost seq_view = table_view(sequences@);
    let ghost clock_view = table_view(clocks@);
    let producer_sequences = sequence_ranges(sequences);
    let logical_clocks = clock_ranges(clocks);
    OrderingBounds {
        producer_sequences,
        logical_clocks,
        observed_at: observed_at.range,
        observed_by_at: observed_by_at.range,
        recorded_at: recorded_at.range,
    }
}

/// The classification labels of a record batch.
pub open spec fn classifications_of(rs: Seq<EvidenceRecord>) -> Set<Seq<char>> {
    Set::new(|c: Seq<char>| exists|i: int| 0 <= i < rs.len() && crate::schema::classification_of(#[trigger] rs[i]) == c)
}

/// The classification labels of a record batch.
pub fn classifications(records: &[EvidenceRecord]) -> (labels: TextSet)
    ensures
        labels@.to_set() == classifications_of(records@),
{
    let mut labels = TextSet::new();
    let mut i: usize = 0;
    proof {
        assert(labels@.to_set() =~= classifications_of(records@.subrange(0, 0)));
    }
    while i < records.len()
        invariant
            0 <= i <= records@.len(),
            labels@.to_set() == classifications_of(records@.subrange(0, i as int)),
        decreases records@.len() - i,
    {
        let ghost prev = labels@.to_set();
        labels.insert(records[i].classification().to_owned());
        proof {
            let before = records@.subrange(0, i as int);
            let after = records@.subrange(0, i + 1);
            assert forall|c: Seq<char>| classifications_of(after).contains(c) <==> labels@.to_set().contains(c) by {
                if classifications_of(after).contains(c) {
                    let k = choose|k: int| 0 <= k < after.len() && crate::schema::classification_of(#[trigger] after[k]) == c;
                    if k < i {
                        assert(after[k] == before[k]);
                        assert(classifications_of(before).contains(c));
                    }
                }
                if prev.contains(c) {
                    let k = choose|k: int| 0 <= k < before.len() && crate::schema::classification_of(#[trigger] before[k]) == c;
                    assert(after[k] == before[k]);
                }
                if labels@.to_set().contains(c) && !prev.contains(c) {
                    assert(after[i as int] == records@[i as int]);
                }
            }
            assert(labels@.to_set() =~= classifications_of(after));
        }
        i = i + 1;
    }
    assert(records@.subrange(0, records@.len() as int) =~= records@);
    labels
}

/// The byte strings of a list of byte vectors.
pub open spec fn row_bytes(rows: Seq<Vec<u8>>) -> Seq<Seq<u8>> {
    rows.map_values(|r: Vec<u8>| r@)
}

/// Canonical JSONL content: each row followed by a line feed.
pub open spec fn jsonl(rows: Seq<Seq<u8>>) -> Seq<u8>
    decreases rows.len(),
{
    if rows.len() == 0 {
        Seq::empty()
    } else {
        jsonl(rows.drop_last()) + rows.last() + seq![10u8]
    }
}

/// Adding one record's canonical row to content gathered so far: the record must
/// keep the evidence schema, and the content must stay within its bound (and
/// within what a `u64` counts).
pub open spec fn content_step(c: Seq<u8>, record: EvidenceRecord, row: Seq<u8>) -> Result<Seq<u8>, SegmentFault> {
    match crate::schema::record_fault(record) {
        Some(f) => Err(SegmentFault::SchemaInvalid(schema_message_of(f))),
        None => {
            let next = c.len() + row.len() + 1;
            if next > 18446744073709551615 {
                Err(SegmentFault::ContentTooLarge(18446744073709551615))
            } else if next > 268435456 {
                Err(SegmentFault::ContentTooLarge(next as u64))
            } else {
                Ok(c + row + seq![10u8])
            }
        },
    }
}

/// What gathering the canonical rows of records into content gives, record by
/// record: the first failing step, or the content.
#[verifier::opaque]
pub open spec fn content_outcome(records: Seq<EvidenceRecord>, rows: Seq<Seq<u8>>) -> Result<Seq<u8>, SegmentFault>
    decreases records.len(),
{
    if records.len() == 0 || rows.len() == 0 {
        Ok(Seq::empty())
    } else {
        match content_outcome(records.drop_last(), rows.drop_last()) {
            Err(e) => Err(e),
            Ok(c) => content_step(c, records.last(), rows.last()),
        }
    }
}

proof fn lemma_content_step(records: Seq<EvidenceRecord>, rows: Seq<Seq<u8>>, i: int)
    requires
        0 <= i < records.len(),
        records.len() == rows.len(),
    ensures
        content_outcome(records.subrange(0, i + 1), rows.subrange(0, i + 1)) == match content_outcome(
            records.subrange(0, i),
            rows.subrange(0, i),
        ) {
            Err(e) => Err(e),
            Ok(c) => content_step(c, records[i], rows[i]),
        },
{
    reveal(content_outcome);
    let rs = records.subrange(0, i + 1);
    let bs = rows.subrange(0, i + 1);
    assert(rs.drop_last() =~= records.subrange(0, i));
    assert(bs.drop_last() =~= rows.subrange(0, i));
}

/// Once gathering content fails, gathering more records fails the same way.
proof fn lemma_content_error_persists(records: Seq<EvidenceRecord>, rows: Seq<Seq<u8>>, i: int)
    requires
        0 <= i <= records.len(),
        records.len() == rows.len(),
        content_outcome(records.subrange(0, i), rows.subrange(0, i)) is Err,
    ensures
        content_outcome(records, rows) == content_outcome(records.subrange(0, i), rows.subrange(0, i)),
    decreases records.len() - i,
{
    if i < records.len() {
        lemma_content_step(records, rows, i);
        lemma_content_error_persists(records, rows, i + 1);
    } else {
        assert(records.subrange(0, i) =~= records);
        assert(rows.subrange(0, i) =~= rows);
    }
}

/// Validates one record and appends its canonical row and a line feed.
fn append_row(content: &mut Vec<u8>, record: &EvidenceRecord, row: &Vec<u8>) -> (result: Result<(), SegmentError>)
    requires
        old(content)@.len() <= 268435456,
    ensures
        match result {
            Ok(()) => content_step(old(content)@, *record, row@) == Ok::<Seq<u8>, SegmentFault>(final(content)@),
            Err(e) => content_step(old(content)@, *record, row@) == Err::<Seq<u8>, SegmentFault>(e@),
        },
        final(content)@.len() <= 268435456,
{
    match record.validate() {
        Err(e) => {
            return Err(SegmentError::from_schema(&e));
        },
        Ok(()) => {},
    }
    let row_length = row.len();
    if row_length as u64 >= 18446744073709551615u64 - content.len() as u64 {
        return Err(SegmentError::ContentTooLarge(18446744073709551615u64));
    }
    let next_length: u64 = content.len() as u64 + row_length as u64 + 1;
    if next_length > MAX_UNCOMPRESSED_BYTES {
        return Err(SegmentError::ContentTooLarge(next_length));
    }
    let ghost start = content@;
    append_bytes(content, row.as_slice());
    content.push(10u8);
    assert(content@ =~= start + row@ + seq![10u8]);
    Ok(())
}

/// Validates records in order and gathers their canonical rows into JSONL content.
pub fn build_content(records: &[EvidenceRecord], rows: &[Vec<u8>]) -> (result: Result<Vec<u8>, SegmentError>)
    requires
        rows@.len() == records@.len(),
    ensures
        match result {
            Ok(content) => content_outcome(records@, row_bytes(rows@)) == Ok::<Seq<u8>, SegmentFault>(content@),
            Err(e) => content_outcome(records@, row_bytes(rows@)) == Err::<Seq<u8>, SegmentFault>(e@),
        },
{
    let mut content: Vec<u8> = Vec::new();
    let mut i: usize = 0;
    proof {
        reveal(content_outcome);
        assert(records@.subrange(0, 0).len() == 0);
    }
    while i < records.len()
        invariant
            0 <= i <= records@.len(),
            rows@.len() == records@.len(),
            content@.len() <= 268435456,
            content_outcome(records@.subrange(0, i as int), row_bytes(rows@).subrange(0, i as int))
                == Ok::<Seq<u8>, SegmentFault>(content@),
        decreases records@.len() - i,
    {
        proof {
            lemma_content_step(records@, row_bytes(rows@), i as int);
            assert(row_bytes(rows@)[i as int] == rows@[i as int]@);
        }
        match append_row(&mut content, &records[i], &rows[i]) {
            Ok(()) => {},
            Err(e) => {
                proof {
                    lemma_content_error_persists(records@, row_bytes(rows@), i + 1);
                }
                return Err(e);
            },
        }
        i = i + 1;
    }
    proof {
        assert(records@.subrange(0, records@.len() as int) =~= records@);
        assert(row_bytes(rows@).subrange(0, records@.len() as int) =~= row_bytes(rows@));
    }
    Ok(content)
}

/// The content-addressed identity of a record batch.
pub open spec fn segment_id_outcome(records: Seq<EvidenceRecord>, rows: Seq<Seq<u8>>) -> Result<Seq<char>, SegmentFault> {
    if records.len() == 0 || records.len() > 10000000 {
        Err(SegmentFault::RowLimitExceeded(records.len() as u64))
    } else {
        match content_outcome(records, rows) {
            Err(e) => Err(e),
            Ok(content) => Ok("seg-"@ + lower_hex_text(sha256_of(content))),
        }
    }
}

/// Computes the content-addressed identity of a non-empty record batch from the
/// canonical JSON row of each record.
pub fn segment_id_for_records(records: &[EvidenceRecord], rows: &[Vec<u8>]) -> (result: Result<String, SegmentError>)
    requires
        rows@.len() == records@.len(),
    ensures
        match result {
            Ok(id) => segment_id_outcome(records@, row_bytes(rows@)) == Ok::<Seq<char>, SegmentFault>(id@),
            Err(e) => segment_id_outcome(records@, row_bytes(rows@)) == Err::<Seq<char>, SegmentFault>(e@),
        },
{
    if records.len() == 0 || records.len() as u64 > MAX_ROWS {
        return Err(SegmentError::RowLimitExceeded(records.len() as u64));
    }
    let content = build_content(records, rows)?;
    let mut id = "seg-".to_owned();
    id.append(sha256_hex(content.as_slice()).as_str());
    Ok(id)
}

/// The keys of range entries.
pub open spec fn entry_keys(entries: Seq<RangeView>) -> Seq<Seq<Seq<char>>> {
    entries.map_values(|e: RangeView| e.0)
}

/// The keys of points.
pub open spec fn point_keys(points: Seq<PointView>) -> Set<Seq<Seq<char>>> {
    Set::new(|k: Seq<Seq<char>>| exists|m: int| 0 <= m < points.len() && (#[trigger] points[m]).0 == k)
}

proof fn lemma_entry_keys_within(entries: Seq<RangeView>, points: Seq<PointView>)
    requires
        ranges_min_attained(entries, points),
    ensures
        entry_keys(entries).to_set().subset_of(point_keys(points)),
{
    reveal(ranges_min_attained);
    assert forall|x: Seq<Seq<char>>| entry_keys(entries).to_set().contains(x) implies point_keys(points).contains(x) by {
        let i = choose|i: int| 0 <= i < entry_keys(entries).len() && entry_keys(entries)[i] == x;
        assert(entry_keys(entries)[i] == entries[i].0);
        let k = choose|k: int| 0 <= k < points.len() && (#[trigger] points[k]).0 == (#[trigger] entries[i]).0 && points[k].1 == entries[i].1;
    }
}

proof fn lemma_point_keys_within(entries: Seq<RangeView>, points: Seq<PointView>)
    requires
        ranges_cover(entries, points),
    ensures
        point_keys(points).subset_of(entry_keys(entries).to_set()),
{
    reveal(ranges_cover);
    assert forall|x: Seq<Seq<char>>| point_keys(points).contains(x) implies entry_keys(entries).to_set().contains(x) by {
        let m = choose|m: int| 0 <= m < points.len() && (#[trigger] points[m]).0 == x;
        let i = choose|i: int| 0 <= i < entries.len() && (#[trigger] entries[i]).0 == (#[trigger] points[m]).0;
        assert(entry_keys(entries)[i] == x);
    }
}

/// Strictly sorted key lists with the same members are equal.
proof fn lemma_sorted_key_lists_equal(a: Seq<Seq<Seq<char>>>, b: Seq<Seq<Seq<char>>>)
    requires
        forall|i: int, j: int| 0 <= i < j < a.len() ==> keys_lt(#[trigger] a[i], #[trigger] a[j]),
        forall|i: int, j: int| 0 <= i < j < b.len() ==> keys_lt(#[trigger] b[i], #[trigger] b[j]),
        a.to_set() == b.to_set(),
    ensures
        a == b,
    decreases a.len(),
{
    if a.len() == 0 {
        if b.len() > 0 {
            assert(b.to_set().contains(b[0]));
            assert(false);
        }
        assert(a =~= b);
    } else if b.len() == 0 {
        assert(a.to_set().contains(a[0]));
        assert(false);
    } else {
        assert(a.to_set().contains(a[0]));
        assert(b.to_set().contains(b[0]));
        assert(b.contains(a[0]));
        assert(a.contains(b[0]));
        let ia = choose|i: int| 0 <= i < a.len() && a[i] == b[0];
        let ib = choose|i: int| 0 <= i < b.len() && b[i] == a[0];
        if a[0] != b[0] {
            assert(ia > 0);
            assert(ib > 0);
            assert(keys_lt(a[0], a[ia]));
            assert(keys_lt(b[0], b[ib]));
            lemma_keys_lt_asymmetric(a[0], b[0]);
        }
        let ta = a.drop_first();
        let tb = b.drop_first();
        assert forall|x: Seq<Seq<char>>| ta.to_set().contains(x) implies tb.to_set().contains(x) by {
            let k = choose|k: int| 0 <= k < ta.len() && ta[k] == x;
            assert(a[k + 1] == x);
            assert(a.to_set().contains(x));
            assert(b.contains(x));
            let m = choose|m: int| 0 <= m < b.len() && b[m] == x;
            if m == 0 {
                lemma_keys_lt_irreflexive(a[0]);
                assert(keys_lt(a[0], a[k + 1]));
            }
            assert(tb[m - 1] == x);
        }
        assert forall|x: Seq<Seq<char>>| tb.to_set().contains(x) implies ta.to_set().contains(x) by {
            let k = choose|k: int| 0 <= k < tb.len() && tb[k] == x;
            assert(b[k + 1] == x);
            assert(b.to_set().contains(x));
            assert(a.contains(x));
            let m = choose|m: int| 0 <= m < a.len() && a[m] == x;
            if m == 0 {
                lemma_keys_lt_irreflexive(b[0]);
                assert(keys_lt(b[0], b[k + 1]));
            }
            assert(ta[m - 1] == x);
        }
        assert(ta.to_set() =~= tb.to_set());
        lemma_sorted_key_lists_equal(ta, tb);
        assert(a =~= seq![a[0]] + ta);
        assert(b =~= seq![b[0]] + tb);
    }
}

/// Two entry lists that describe the same points have the same keys in order.
proof fn lemma_sorted_keys_unique(a: Seq<RangeView>, b: Seq<RangeView>, points: Seq<PointView>)
    requires
        describes_ranges(a, points),
        describes_ranges(b, points),
    ensures
        entry_keys(a) == entry_keys(b),
{
    reveal(describes_ranges);
    lemma_entry_keys_within(a, points);
    lemma_entry_keys_within(b, points);
    lemma_point_keys_within(a, points);
    lemma_point_keys_within(b, points);
    assert(entry_keys(a).to_set() =~= entry_keys(b).to_set());
    reveal(ranges_sorted);
    assert forall|i: int, j: int| 0 <= i < j < entry_keys(a).len() implies keys_lt(
        #[trigger] entry_keys(a)[i],
        #[trigger] entry_keys(a)[j],
    ) by {
        assert(keys_lt(a[i].0, a[j].0));
    }
    assert forall|i: int, j: int| 0 <= i < j < entry_keys(b).len() implies keys_lt(
        #[trigger] entry_keys(b)[i],
        #[trigger] entry_keys(b)[j],
    ) by {
        assert(keys_lt(b[i].0, b[j].0));
    }
    lemma_sorted_key_lists_equal(entry_keys(a), entry_keys(b));
}

/// Only one entry list describes the ranges of a list of points.
pub proof fn lemma_ranges_unique(a: Seq<RangeView>, b: Seq<RangeView>, points: Seq<PointView>)
    requires
        describes_ranges(a, points),
        describes_ranges(b, points),
    ensures
        a == b,
{
    lemma_sorted_keys_unique(a, b, points);
    reveal(describes_ranges);
    reveal(ranges_min_attained);
    reveal(ranges_max_attained);
    reveal(ranges_bounded);
    assert(a.len() == entry_keys(a).len() && b.len() == entry_keys(b).len());
    assert forall|i: int| 0 <= i < a.len() implies a[i] == b[i] by {
        assert(entry_keys(a)[i] == entry_keys(b)[i]);
        let ka = choose|k: int| 0 <= k < points.len() && (#[trigger] points[k]).0 == (#[trigger] a[i]).0 && points[k].1 == a[i].1;
        let kb = choose|k: int| 0 <= k < points.len() && (#[trigger] points[k]).0 == (#[trigger] b[i]).0 && points[k].1 == b[i].1;
        let xa = choose|k: int| 0 <= k < points.len() && (#[trigger] points[k]).0 == (#[trigger] a[i]).0 && points[k].1 == a[i].2;
        let xb = choose|k: int| 0 <= k < points.len() && (#[trigger] points[k]).0 == (#[trigger] b[i]).0 && points[k].1 == b[i].2;
        assert(a[i].1 <= points[kb].1 && b[i].1 <= points[ka].1);
        assert(points[xb].1 <= a[i].2 && points[xa].1 <= b[i].2);
    }
    assert(a =~= b);
}

/// Only one time range describes a list of timestamps, up to the text of its ends.
pub proof fn lemma_time_range_unique(a: Option<TimeRange>, b: Option<TimeRange>, ts: Seq<Timestamp>)
    requires
        describes_time_range(a, ts),
        describes_time_range(b, ts),
    ensures
        time_range_view(a) == time_range_view(b),
{
    if a is Some && b is Some {
        let ra = a->0;
        let rb = b->0;
        let (ia, ja) = choose|i: int, j: int|
            first_least(ts, i) && last_greatest(ts, j) && ra.min@ == (#[trigger] ts[i])@ && ra.max@ == (
            #[trigger] ts[j])@;
        let (ib, jb) = choose|i: int, j: int|
            first_least(ts, i) && last_greatest(ts, j) && rb.min@ == (#[trigger] ts[i])@ && rb.max@ == (
            #[trigger] ts[j])@;
        if ia < ib {
            assert(instant_of(ts[ia]) > instant_of(ts[ib]));
        }
        if ib < ia {
            assert(instant_of(ts[ib]) > instant_of(ts[ia]));
        }
        if ja < jb {
            assert(instant_of(ts[jb]) < instant_of(ts[ja]));
        }
        if jb < ja {
            assert(instant_of(ts[ja]) < instant_of(ts[jb]));
        }
    }
}

/// A time range as the texts of its ends.
pub open spec fn time_range_view(r: Option<TimeRange>) -> Option<(Seq<char>, Seq<char>)> {
    match r {
        Some(r) => Some((r.min@, r.max@)),
        None => None,
    }
}

/// Two sets of ordering bounds agree on every range.
pub open spec fn same_bounds(a: OrderingBounds, b: OrderingBounds) -> bool {
    &&& sequence_ranges_view(a.producer_sequences@) == sequence_ranges_view(b.producer_sequences@)
    &&& clock_ranges_view(a.logical_clocks@) == clock_ranges_view(b.logical_clocks@)
    &&& time_range_view(a.observed_at) == time_range_view(b.observed_at)
    &&& time_range_view(a.observed_by_at) == time_range_view(b.observed_by_at)
    &&& time_range_view(a.recorded_at) == time_range_view(b.recorded_at)
}

/// Bounds that agree with the bounds of a record batch describe it, and only those.
pub proof fn lemma_bounds_describe_exactly(a: OrderingBounds, b: OrderingBounds, rs: Seq<EvidenceRecord>)
    requires
        bounds_describe(b, rs),
    ensures
        bounds_describe(a, rs) <==> same_bounds(a, b),
{
    if bounds_describe(a, rs) {
        lemma_ranges_unique(sequence_ranges_view(a.producer_sequences@), sequence_ranges_view(b.producer_sequences@), positions_of(rs));
        lemma_ranges_unique(clock_ranges_view(a.logical_clocks@), clock_ranges_view(b.logical_clocks@), clocks_of(rs));
        lemma_time_range_unique(a.observed_at, b.observed_at, observed_at_times(rs));
        lemma_time_range_unique(a.observed_by_at, b.observed_by_at, observed_by_at_times(rs));
        lemma_time_range_unique(a.recorded_at, b.recorded_at, recorded_at_times(rs));
    }
    if same_bounds(a, b) {
        lemma_time_range_same_view(a.observed_at, b.observed_at, observed_at_times(rs));
        lemma_time_range_same_view(a.observed_by_at, b.observed_by_at, observed_by_at_times(rs));
        lemma_time_range_same_view(a.recorded_at, b.recorded_at, recorded_at_times(rs));
    }
}

proof fn lemma_time_range_same_view(a: Option<TimeRange>, b: Option<TimeRange>, ts: Seq<Timestamp>)
    requires
        describes_time_range(b, ts),
        time_range_view(a) == time_range_view(b),
    ensures
        describes_time_range(a, ts),
{
    if b is Some {
        let rb = b->0;
        let (i, j) = choose|i: int, j: int|
            first_least(ts, i) && last_greatest(ts, j) && rb.min@ == (#[trigger] ts[i])@ && rb.max@ == (
            #[trigger] ts[j])@;
        assert(a->0.min@ == ts[i]@ && a->0.max@ == ts[j]@);
    }
}

fn same_time_range(a: &Option<TimeRange>, b: &Option<TimeRange>) -> (same: bool)
    ensures
        same == (time_range_view(*a) == time_range_view(*b)),
{
    match (a, b) {
        (Some(x), Some(y)) => text_equal(x.min.as_str(), y.min.as_str()) && text_equal(x.max.as_str(), y.max.as_str()),
        (None, None) => true,
        _ => false,
    }
}

fn same_sequence_range(x: &ProducerSequenceRange, y: &ProducerSequenceRange) -> (same: bool)
    ensures
        same == ((seq![x.producer_id@, x.stream_id@], x.min, x.max) == (seq![y.producer_id@, y.stream_id@], y.min, y.max)),
{
    let same = text_equal(x.producer_id.as_str(), y.producer_id.as_str()) && text_equal(x.stream_id.as_str(), y.stream_id.as_str())
        && x.min == y.min && x.max == y.max;
    proof {
        let kx = seq![x.producer_id@, x.stream_id@];
        let ky = seq![y.producer_id@, y.stream_id@];
        if same {
            assert(kx =~= ky);
        }
        if kx == ky {
            assert(kx[0] == ky[0] && kx[1] == ky[1]);
        }
    }
    same
}

fn same_clock_range(x: &LogicalRange, y: &LogicalRange) -> (same: bool)
    ensures
        same == ((seq![x.clock_id@], x.min, x.max) == (seq![y.clock_id@], y.min, y.max)),
{
    let same = text_equal(x.clock_id.as_str(), y.clock_id.as_str()) && x.min == y.min && x.max == y.max;
    proof {
        let kx = seq![x.clock_id@];
        let ky = seq![y.clock_id@];
        if same {
            assert(kx =~= ky);
        }
        if kx == ky {
            assert(kx[0] == ky[0]);
        }
    }
    same
}

/// Whether two sets of ordering bounds agree on every range.
pub fn bounds_equal(a: &OrderingBounds, b: &OrderingBounds) -> (same: bool)
    ensures
        same == same_bounds(*a, *b),
{
    let xs = &a.producer_sequences;
    let ys = &b.producer_sequences;
    if xs.len() != ys.len() {
        assert(sequence_ranges_view(xs@).len() != sequence_ranges_view(ys@).len());
        return false;
    }
    let mut i: usize = 0;
    while i < xs.len()
        invariant
            0 <= i <= xs@.len(),
            xs@.len() == ys@.len(),
            xs@ == a.producer_sequences@,
            ys@ == b.producer_sequences@,
            forall|k: int| 0 <= k < i ==> #[trigger] sequence_ranges_view(xs@)[k] == sequence_ranges_view(ys@)[k],
        decreases xs@.len() - i,
    {
        let x = &xs[i];
        let y = &ys[i];
        assert(sequence_ranges_view(xs@)[i as int] == (seq![x.producer_id@, x.stream_id@], x.min, x.max));
        assert(sequence_ranges_view(ys@)[i as int] == (seq![y.producer_id@, y.stream_id@], y.min, y.max));
        if !same_sequence_range(x, y) {
            assert(sequence_ranges_view(xs@)[i as int] != sequence_ranges_view(ys@)[i as int]);
            assert(sequence_ranges_view(xs@) != sequence_ranges_view(ys@));
            return false;
        }
        i = i + 1;
    }
    assert(sequence_ranges_view(xs@) =~= sequence_ranges_view(ys@));
    let cs = &a.logical_clocks;
    let ds = &b.logical_clocks;
    if cs.len() != ds.len() {
        assert(clock_ranges_view(cs@).len() != clock_ranges_view(ds@).len());
        return false;
    }
    let mut j: usize = 0;
    while j < cs.len()
        invariant
            0 <= j <= cs@.len(),
            cs@.len() == ds@.len(),
            cs@ == a.logical_clocks@,
            ds@ == b.logical_clocks@,
            sequence_ranges_view(a.producer_sequences@) == sequence_ranges_view(b.producer_sequences@),
            forall|k: int| 0 <= k < j ==> #[trigger] clock_ranges_view(cs@)[k] == clock_ranges_view(ds@)[k],
        decreases cs@.len() - j,
    {
        let x = &cs[j];
        let y = &ds[j];
        assert(clock_ranges_view(cs@)[j as int] == (seq![x.clock_id@], x.min, x.max));
        assert(clock_ranges_view(ds@)[j as int] == (seq![y.clock_id@], y.min, y.max));
        if !same_clock_range(x, y) {
            assert(clock_ranges_view(cs@)[j as int] != clock_ranges_view(ds@)[j as int]);
            assert(clock_ranges_view(cs@) != clock_ranges_view(ds@));
            return false;
        }
        j = j + 1;
    }
    assert(clock_ranges_view(cs@) =~= clock_ranges_view(ds@));
    same_time_range(&a.observed_at, &b.observed_at) && same_time_range(&a.observed_by_at, &b.observed_by_at)
        && same_time_range(&a.recorded_at, &b.recorded_at)
}

/// The container flags a manifest implies: the content digest flag, and the
/// dictionary flag when it names a dictionary.
pub open spec fn inferred_flags(m: SegmentManifest) -> u16 {
    if m.compression.dictionary is Some {
        3
    } else {
        2
    }
}

/// The payload length a manifest's first frame declares, or zero.
pub open spec fn declared_payload_length(m: SegmentManifest) -> u64 {
    if m.compression.frames@.len() > 0 {
        m.compression.frames@[0].compressed_bytes
    } else {
        0
    }
}

/// The first way a manifest disagrees with the canonical record batch it claims:
/// its shape, its row count, the batch's own failure, its identity and content
/// digest, its classifications, its ordering bounds.
pub open spec fn records_fault(m: SegmentManifest, records: Seq<EvidenceRecord>, rows: Seq<Seq<u8>>) -> Option<SegmentFault> {
    let shape = shape_fault(m, inferred_flags(m), declared_payload_length(m));
    if shape is Some {
        shape
    } else if m.row_count != records.len() {
        Some(
            SegmentFault::ManifestInvalid(
                "manifest declares "@ + decimal_text(m.row_count as nat) + " rows but decoded "@ + decimal_text(
                    records.len(),
                ),
            ),
        )
    } else {
        match segment_id_outcome(records, rows) {
            Err(e) => Some(e),
            Ok(id) => if m.segment_id@ != id || m.integrity.content_sha256@ != id.subrange(4, id.len() as int) {
                Some(SegmentFault::ManifestInvalid("segment identity disagrees with canonical records"@))
            } else if m.classifications@.to_set() != classifications_of(records) {
                Some(SegmentFault::ManifestInvalid("classifications disagree with canonical records"@))
            } else if !bounds_describe(m.ordering_bounds, records) {
                Some(SegmentFault::ManifestInvalid("ordering bounds disagree with canonical records"@))
            } else {
                None
            },
        }
    }
}

impl SegmentManifest {
    /// Validates every manifest field derived from the canonical record batch,
    /// given the canonical JSON row of each record.
    pub fn validate_records(&self, records: &[EvidenceRecord], rows: &[Vec<u8>]) -> (result: Result<(), SegmentError>)
        requires
            rows@.len() == records@.len(),
        ensures
            check_fault(result) == records_fault(*self, records@, row_bytes(rows@)),
    {
        let flags: u16 = if self.compression.dictionary.is_some() { 3 } else { 2 };
        let compressed_length = if self.compression.frames.len() > 0 {
            self.compression.frames[0].compressed_bytes
        } else {
            0
        };
        self.validate_shape(flags, compressed_length)?;
        let actual_rows = records.len() as u64;
        if self.row_count != actual_rows {
            let mut message = "manifest declares ".to_owned();
            message.append(decimal(self.row_count).as_str());
            message.append(" rows but decoded ");
            message.append(decimal(actual_rows).as_str());
            return Err(SegmentError::ManifestInvalid(message));
        }
        let expected_id = segment_id_for_records(records, rows)?;
        proof {
            reveal_strlit("seg-");
        }
        let n = expected_id.as_str().unicode_len();
        let expected_digest = expected_id.as_str().substring_char(4, n);
        if !text_equal(self.segment_id.as_str(), expected_id.as_str()) || !text_equal(
            self.integrity.content_sha256.as_str(),
            expected_digest,
        ) {
            return Err(invalid("segment identity disagrees with canonical records"));
        }
        if !self.classifications.same_members(&classifications(records)) {
            return Err(invalid("classifications disagree with canonical records"));
        }
        let bounds = ordering_bounds(records);
        proof {
            lemma_bounds_describe_exactly(self.ordering_bounds, bounds, records@);
        }
        if !bounds_equal(&self.ordering_bounds, &bounds) {
            return Err(invalid("ordering bounds disagree with canonical records"));
        }
        Ok(())
    }
}

/// Where a dictionary stands in its lifecycle.
#[derive(Clone, Copy, Debug, Eq, PartialEq, Structural)]
pub enum DictionaryStatus {
    Active,
    Deprecated,
    Retained,
}

/// One dictionary of a registry.
#[derive(Clone, Debug, Eq, PartialEq)]
pub struct DictionaryEntry {
    pub family: String,
    pub version: u64,
    pub digest: String,
    pub byte_length: u64,
    pub training_corpus_digest: String,
    pub status: DictionaryStatus,
    pub activated_at: Timestamp,
    pub deprecated_at: Option<Timestamp>,
    pub retained_until: Option<Timestamp>,
}

/// The locator of a registry entry.
pub open spec fn entry_locator(e: DictionaryEntry) -> LocatorView {
    LocatorView { family: e.family@, version: e.version, digest: e.digest@ }
}

impl DictionaryEntry {
    /// The locator that names this dictionary.
    pub fn locator(&self) -> (locator: DictionaryLocator)
        ensures
            locator@ == entry_locator(*self),
    {
        DictionaryLocator { family: self.family.clone(), version: self.version, digest: self.digest.clone() }
    }
}

/// The registry of the dictionaries segments may name.
#[derive(Clone, Debug, Eq, PartialEq)]
pub struct DictionaryRegistry {
    pub api_version: String,
    pub registry_id: String,
    pub generated_at: Timestamp,
    pub entries: Vec<DictionaryEntry>,
    pub rollback_versions: Vec<DictionaryLocator>,
}

/// Why entry `i` of a registry is rejected, given that every earlier entry passed:
/// a malformed field or a locator seen before; a second active version of a
/// family; an active entry with a deprecation time.
pub open spec fn entry_fault(es: Seq<DictionaryEntry>, i: int) -> Option<Seq<char>> {
    let e = es[i];
    if e.version == 0 || e.byte_length == 0 || !is_lower_hex_digest(e.digest@) || !is_lower_hex_digest(
        e.training_corpus_digest@,
    ) || exists|k: int| 0 <= k < i && entry_locator(#[trigger] es[k]) == entry_locator(e) {
        Some("invalid or duplicate dictionary entry"@)
    } else if e.status == DictionaryStatus::Active && exists|k: int|
        0 <= k < i && (#[trigger] es[k]).status == DictionaryStatus::Active && es[k].family@ == e.family@ {
        Some("a dictionary family has multiple active versions"@)
    } else if e.status == DictionaryStatus::Active && e.deprecated_at is Some {
        Some("active dictionary cannot have deprecated_at"@)
    } else {
        None
    }
}

/// The entry checks of a registry, in entry order.
pub open spec fn entry_faults(es: Seq<DictionaryEntry>) -> Seq<Option<Seq<char>>> {
    Seq::new(es.len(), |i: int| entry_fault(es, i))
}

/// The first failure of a registry: its identity, then its entries in order, then
/// a rollback locator that names no entry.
pub open spec fn registry_fault(r: DictionaryRegistry) -> Option<SegmentFault> {
    if r.api_version@ != "fabric.dictionary-registry/v1"@ || r.registry_id@.len() == 0 {
        Some(SegmentFault::ManifestInvalid("invalid dictionary registry identity"@))
    } else if first_some(entry_faults(r.entries@)) is Some {
        Some(SegmentFault::ManifestInvalid(first_some(entry_faults(r.entries@))->0))
    } else if exists|j: int|
        0 <= j < r.rollback_versions@.len() && !exists|k: int|
            0 <= k < r.entries@.len() && entry_locator(#[trigger] r.entries@[k]) == (
            #[trigger] r.rollback_versions@[j])@ {
        Some(SegmentFault::ManifestInvalid("rollback locator is absent from entries"@))
    } else {
        None
    }
}

/// Whether an earlier entry has this locator.
fn locator_seen(es: &Vec<DictionaryEntry>, upto: usize, locator: &DictionaryLocator) -> (seen: bool)
    requires
        upto <= es@.len(),
    ensures
        seen == exists|k: int| 0 <= k < upto && entry_locator(#[trigger] es@[k]) == locator@,
{
    let mut k: usize = 0;
    while k < upto
        invariant
            0 <= k <= upto <= es@.len(),
            forall|m: int| 0 <= m < k ==> entry_locator(#[trigger] es@[m]) != locator@,
        decreases upto - k,
    {
        let l = es[k].locator();
        if l.same_as(locator) {
            return true;
        }
        k = k + 1;
    }
    false
}

/// Whether an earlier entry is an active version of this family.
fn active_family_seen(es: &Vec<DictionaryEntry>, upto: usize, family: &str) -> (seen: bool)
    requires
        upto <= es@.len(),
    ensures
        seen == exists|k: int|
            0 <= k < upto && (#[trigger] es@[k]).status == DictionaryStatus::Active && es@[k].family@ == family@,
{
    let mut k: usize = 0;
    while k < upto
        invariant
            0 <= k <= upto <= es@.len(),
            forall|m: int|
                0 <= m < k ==> !((#[trigger] es@[m]).status == DictionaryStatus::Active && es@[m].family@ == family@),
        decreases upto - k,
    {
        if es[k].status == DictionaryStatus::Active && text_equal(es[k].family.as_str(), family) {
            return true;
        }
        k = k + 1;
    }
    false
}

/// Checks entry `i` of a registry.
fn check_entry(es: &Vec<DictionaryEntry>, i: usize) -> (fault: Option<&'static str>)
    requires
        i < es@.len(),
    ensures
        match fault {
            Some(m) => entry_fault(es@, i as int) == Some(m@),
            None => entry_fault(es@, i as int) is None,
        },
{
    let e = &es[i];
    let locator = e.locator();
    if e.version == 0 || e.byte_length == 0 || !check_lower_hex_digest(e.digest.as_str()) || !check_lower_hex_digest(
        e.training_corpus_digest.as_str(),
    ) || locator_seen(es, i, &locator) {
        return Some("invalid or duplicate dictionary entry");
    }
    if e.status == DictionaryStatus::Active && active_family_seen(es, i, e.family.as_str()) {
        return Some("a dictionary family has multiple active versions");
    }
    if e.status == DictionaryStatus::Active && e.deprecated_at.is_some() {
        return Some("active dictionary cannot have deprecated_at");
    }
    None
}

impl DictionaryRegistry {
    /// Checks the registry's identity, its entries and its rollback locators.
    pub fn validate(&self) -> (result: Result<(), SegmentError>)
        ensures
            check_fault(result) == registry_fault(*self),
    {
        if !text_equal(self.api_version.as_str(), "fabric.dictionary-registry/v1") || self.registry_id.unicode_len()
            == 0 {
            return Err(invalid("invalid dictionary registry identity"));
        }
        let ghost faults = entry_faults(self.entries@);
        let mut i: usize = 0;
        while i < self.entries.len()
            invariant
                0 <= i <= self.entries@.len(),
                faults == entry_faults(self.entries@),
                self.api_version@ == "fabric.dictionary-registry/v1"@,
                self.registry_id@.len() > 0,
                forall|k: int| 0 <= k < i ==> (#[trigger] faults[k]) is None,
            decreases self.entries@.len() - i,
        {
            match check_entry(&self.entries, i) {
                Some(message) => {
                    proof {
                        lemma_first_some_skip(faults, i as int);
                        assert(faults[i as int] == entry_fault(self.entries@, i as int));
                        assert(faults.skip(i as int)[0] == faults[i as int]);
                    }
                    return Err(invalid(message));
                },
                None => {},
            }
            i = i + 1;
        }
        proof {
            lemma_first_some_skip(faults, i as int);
            assert(faults.skip(i as int).len() == 0);
        }
        let mut j: usize = 0;
        while j < self.rollback_versions.len()
            invariant
                0 <= j <= self.rollback_versions@.len(),
                self.api_version@ == "fabric.dictionary-registry/v1"@,
                self.registry_id@.len() > 0,
                first_some(entry_faults(self.entries@)) is None,
                forall|m: int|
                    0 <= m < j ==> exists|k: int|
                        0 <= k < self.entries@.len() && entry_locator(#[trigger] self.entries@[k]) == (
                        #[trigger] self.rollback_versions@[m])@,
            decreases self.rollback_versions@.len() - j,
        {
            if !locator_seen(&self.entries, self.entries.len(), &self.rollback_versions[j]) {
                return Err(invalid("rollback locator is absent from entries"));
            }
            j = j + 1;
        }
        Ok(())
    }
}

/// A copy of bytes.
fn copy_bytes(bytes: &[u8]) -> (copy: Vec<u8>)
    ensures
        copy@ == bytes@,
{
    vstd::slice::slice_to_vec(bytes)
}

/// Compression dictionary bytes whose digest matches their locator.
#[derive(Debug)]
pub struct DictionaryMaterial {
    locator: DictionaryLocator,
    bytes: Vec<u8>,
}

/// Dictionary material as plain values.
pub ghost struct MaterialView {
    pub locator: DictionaryLocator,
    pub bytes: Seq<u8>,
}

impl View for DictionaryMaterial {
    type V = MaterialView;

    closed spec fn view(&self) -> MaterialView {
        MaterialView { locator: self.locator, bytes: self.bytes@ }
    }
}

/// The lowercase hex SHA-256 digest of bytes is this text.
pub open spec fn digest_matches(bytes: Seq<u8>, digest: Seq<char>) -> bool {
    lower_hex_text(sha256_of(bytes)) == digest
}

impl Clone for DictionaryMaterial {
    fn clone(&self) -> (copy: Self)
        ensures
            copy@ == self@,
    {
        proof {
            use_type_invariant(self);
        }
        DictionaryMaterial { locator: self.locator.copy(), bytes: copy_bytes(self.bytes.as_slice()) }
    }
}

impl DictionaryMaterial {
    #[verifier::type_invariant]
    closed spec fn digest_addressed(self) -> bool {
        digest_matches(self.bytes@, self.locator.digest@)
    }

    /// Pairs dictionary bytes with their locator, refusing bytes whose digest is
    /// not the locator's.
    pub fn new(locator: DictionaryLocator, bytes: Vec<u8>) -> (result: Result<DictionaryMaterial, SegmentError>)
        ensures
            result is Ok <==> digest_matches(bytes@, locator.digest@),
            match result {
                Ok(material) => material@ == MaterialView { locator, bytes: bytes@ },
                Err(e) => e == SegmentError::DictionaryDigestMismatch(locator),
            },
    {
        let digest = sha256_hex(bytes.as_slice());
        if !text_equal(digest.as_str(), locator.digest.as_str()) {
            return Err(SegmentError::DictionaryDigestMismatch(locator));
        }
        Ok(DictionaryMaterial { locator, bytes })
    }

    /// The locator that names the dictionary.
    pub fn locator(&self) -> (locator: &DictionaryLocator)
        ensures
            *locator == self@.locator,
            digest_matches(self@.bytes, locator.digest@),
    {
        proof {
            use_type_invariant(self);
        }
        &self.locator
    }

    /// The dictionary bytes.
    pub fn bytes(&self) -> (bytes: &Vec<u8>)
        ensures
            bytes@ == self@.bytes,
    {
        &self.bytes
    }
}

/// How to encode a segment.
#[derive(Clone, Debug)]
pub struct EncodeOptions {
    pub created_at: Timestamp,
    pub compression_level: i32,
    pub dictionary: Option<DictionaryMaterial>,
}

impl EncodeOptions {
    /// Zstandard level 3, no dictionary.
    pub fn new(created_at: Timestamp) -> (options: EncodeOptions)
        ensures
            options.created_at == created_at,
            options.compression_level == 3,
            options.dictionary is None,
    {
        EncodeOptions { created_at, compression_level: 3, dictionary: None }
    }
}

/// Finds dictionary bytes by locator. Implementations may fetch them from
/// anywhere; decoding checks their digest.
pub trait DictionaryResolver {
    fn resolve(&self, locator: &DictionaryLocator) -> Result<Vec<u8>, SegmentError>;
}

/// A resolver that knows no dictionary.
#[derive(Clone, Copy, Debug, Default)]
pub struct NoDictionaries;

impl DictionaryResolver for NoDictionaries {
    fn resolve(&self, locator: &DictionaryLocator) -> (result: Result<Vec<u8>, SegmentError>)
        ensures
            result == Err::<Vec<u8>, SegmentError>(SegmentError::MissingDictionary(*locator)),
    {
        Err(SegmentError::MissingDictionary(locator.copy()))
    }
}

/// The bytes held for a locator: those of the first entry with it.
pub open spec fn lookup_dictionary(entries: Seq<(DictionaryLocator, Vec<u8>)>, l: LocatorView) -> Option<Seq<u8>>
    decreases entries.len(),
{
    if entries.len() == 0 {
        None
    } else if entries[0].0@ == l {
        Some(entries[0].1@)
    } else {
        lookup_dictionary(entries.drop_first(), l)
    }
}

/// A resolver over dictionaries held in memory, each checked against its locator.
#[derive(Clone, Debug, Default)]
pub struct MemoryDictionaryResolver {
    dictionaries: Vec<(DictionaryLocator, Vec<u8>)>,
}

impl MemoryDictionaryResolver {
    /// The bytes held for a locator.
    pub closed spec fn held(&self, l: LocatorView) -> Option<Seq<u8>> {
        lookup_dictionary(self.dictionaries@, l)
    }

    /// A resolver that holds nothing.
    pub fn new() -> (resolver: MemoryDictionaryResolver)
        ensures
            forall|l: LocatorView| resolver.held(l) is None,
    {
        MemoryDictionaryResolver { dictionaries: Vec::new() }
    }

    /// Holds dictionary bytes under their locator, replacing what it held there,
    /// after checking their digest against the locator.
    pub fn insert(&mut self, locator: DictionaryLocator, bytes: Vec<u8>) -> (result: Result<(), SegmentError>)
        ensures
            result is Ok <==> digest_matches(bytes@, locator.digest@),
            match result {
                Ok(()) => forall|l: LocatorView|
                    #[trigger] final(self).held(l) == if l == locator@ {
                        Some(bytes@)
                    } else {
                        old(self).held(l)
                    },
                Err(e) => e == SegmentError::DictionaryDigestMismatch(locator) && *final(self) == *old(self),
            },
    {
        let digest = sha256_hex(bytes.as_slice());
        if !text_equal(digest.as_str(), locator.digest.as_str()) {
            return Err(SegmentError::DictionaryDigestMismatch(locator));
        }
        let ghost before = self.dictionaries@;
        let ghost loc = locator;
        let ghost b = bytes@;
        let mut i: usize = 0;
        while i < self.dictionaries.len()
            invariant
                0 <= i <= before.len(),
                self.dictionaries@ == before,
                loc == locator,
                b == bytes@,
                old(self).dictionaries@ == before,
                digest_matches(b, loc.digest@),
                forall|k: int| 0 <= k < i ==> (#[trigger] before[k]).0@ != loc@,
            decreases before.len() - i,
        {
            if self.dictionaries[i].0.same_as(&locator) {
                self.dictionaries.set(i, (locator, bytes));
                proof {
                    let after = self.dictionaries@;
                    assert(after[i as int].0 == loc);
                    assert(after[i as int].1@ == b);
                    assert forall|l: LocatorView| #[trigger] lookup_dictionary(after, l) == if l == loc@ {
                        Some(b)
                    } else {
                        lookup_dictionary(before, l)
                    } by {
                        lemma_lookup_replace(before, i as int, after, l);
                    }
                }
                return Ok(());
            }
            i = i + 1;
        }
        self.dictionaries.push((locator, bytes));
        proof {
            let entry = self.dictionaries@[before.len() as int];
            assert(self.dictionaries@ == before.push(entry));
            assert(entry.0 == loc && entry.1@ == b);
            assert forall|l: LocatorView| #[trigger] lookup_dictionary(self.dictionaries@, l) == if l == loc@ {
                Some(b)
            } else {
                lookup_dictionary(before, l)
            } by {
                lemma_lookup_append(before, entry, l);
            }
        }
        Ok(())
    }
}

proof fn lemma_lookup_replace(
    before: Seq<(DictionaryLocator, Vec<u8>)>,
    i: int,
    after: Seq<(DictionaryLocator, Vec<u8>)>,
    l: LocatorView,
)
    requires
        0 <= i < before.len(),
        forall|k: int| 0 <= k < i ==> (#[trigger] before[k]).0@ != after[i].0@,
        before[i].0@ == after[i].0@,
        after == before.update(i, after[i]),
    ensures
        lookup_dictionary(after, l) == if l == after[i].0@ {
            Some(after[i].1@)
        } else {
            lookup_dictionary(before, l)
        },
    decreases i,
{
    if i == 0 {
        assert(after.drop_first() =~= before.drop_first());
    } else {
        assert(after[0] == before[0]);
        assert(before.drop_first().update(i - 1, after[i]) =~= after.drop_first());
        assert(after.drop_first()[i - 1] == after[i]);
        assert forall|k: int| 0 <= k < i - 1 implies (#[trigger] before.drop_first()[k]).0@ != after.drop_first()[i - 1].0@ by {
            assert(before.drop_first()[k] == before[k + 1]);
        }
        lemma_lookup_replace(before.drop_first(), i - 1, after.drop_first(), l);
    }
}

proof fn lemma_lookup_append(
    before: Seq<(DictionaryLocator, Vec<u8>)>,
    entry: (DictionaryLocator, Vec<u8>),
    l: LocatorView,
)
    requires
        forall|k: int| 0 <= k < before.len() ==> (#[trigger] before[k]).0@ != entry.0@,
    ensures
        lookup_dictionary(before.push(entry), l) == if l == entry.0@ {
            Some(entry.1@)
        } else {
            lookup_dictionary(before, l)
        },
    decreases before.len(),
{
    reveal_with_fuel(lookup_dictionary, 2);
    if before.len() == 0 {
        assert(before.push(entry)[0] == entry);
        assert(before.push(entry).drop_first() =~= Seq::<(DictionaryLocator, Vec<u8>)>::empty());
    } else {
        assert(before.push(entry)[0] == before[0]);
        assert(before.push(entry).drop_first() =~= before.drop_first().push(entry));
        assert forall|k: int| 0 <= k < before.drop_first().len() implies (#[trigger] before.drop_first()[k]).0@ != entry.0@ by {
            assert(before.drop_first()[k] == before[k + 1]);
        }
        lemma_lookup_append(before.drop_first(), entry, l);
    }
}

impl DictionaryResolver for MemoryDictionaryResolver {
    fn resolve(&self, locator: &DictionaryLocator) -> (result: Result<Vec<u8>, SegmentError>)
        ensures
            match self.held(locator@) {
                Some(bytes) => result matches Ok(found) && found@ == bytes,
                None => result == Err::<Vec<u8>, SegmentError>(SegmentError::MissingDictionary(*locator)),
            },
    {
        let mut i: usize = 0;
        assert(self.dictionaries@.skip(0) =~= self.dictionaries@);
        while i < self.dictionaries.len()
            invariant
                0 <= i <= self.dictionaries@.len(),
                lookup_dictionary(self.dictionaries@, locator@) == lookup_dictionary(
                    self.dictionaries@.skip(i as int),
                    locator@,
                ),
            decreases self.dictionaries@.len() - i,
        {
            proof {
                let rest = self.dictionaries@.skip(i as int);
                assert(rest[0] == self.dictionaries@[i as int]);
                assert(rest.drop_first() =~= self.dictionaries@.skip(i + 1));
            }
            if self.dictionaries[i].0.same_as(locator) {
                return Ok(copy_bytes(self.dictionaries[i].1.as_slice()));
            }
            i = i + 1;
        }
        Err(SegmentError::MissingDictionary(locator.copy()))
    }
}

/// The Zstandard frame `zstd` makes of content at a compression level, or `None`
/// when the encoder reports a failure.
pub uninterp spec fn zstd_frame(content: Seq<u8>, level: i32) -> Option<Seq<u8>>;

/// The Zstandard frame `zstd` makes of content at a compression level with a
/// dictionary, or `None` when the encoder reports a failure.
pub uninterp spec fn zstd_frame_with_dictionary(content: Seq<u8>, level: i32, dictionary: Seq<u8>) -> Option<
    Seq<u8>,
>;

/// Calls `zstd::stream::encode_all` over an in-memory reader on the content at the
/// level. The outcome is the named `zstd_frame` of the content and level: the frame
/// on success, `None` on a failure, whose text is returned. The frame is one whole
/// Zstandard frame ("result will be in the zstd frame format"), and a decoder
/// reading at least the content's length gives the content back, as the crate's
/// own compress-then-decompress tests check.
#[verifier::external_body]
fn zstd_compress(content: &[u8], level: i32) -> (compressed: Result<Vec<u8>, String>)
    ensures
        match compressed {
            Ok(frame) => zstd_frame(content@, level) == Some(frame@),
            Err(_) => zstd_frame(content@, level) is None,
        },
        compressed matches Ok(frame) ==> zstd_first_frame_length(frame@) == Some(frame@.len() as usize),
        compressed matches Ok(frame) ==> forall|limit: u64|
            limit >= content@.len() ==> #[trigger] zstd_read(frame@, limit) == Some(content@),
{
    match zstd::stream::encode_all(std::io::Cursor::new(content), level) {
        Ok(frame) => Ok(frame),
        Err(error) => Err(error.to_string()),
    }
}

/// Calls `zstd::stream::Encoder::with_dictionary`, writes the content and calls
/// `finish`. The outcome is the named `zstd_frame_with_dictionary` of the content,
/// level and dictionary: the frame on success, `None` on a failure, whose text is
/// returned. `finish` ends the one frame the encoder wrote,
/// and a decoder with the same dictionary reading at least the content's length
/// gives the content back, as the crate's dictionary tests check.
#[verifier::external_body]
fn zstd_compress_with_dictionary(content: &[u8], level: i32, dictionary: &[u8]) -> (compressed: Result<Vec<u8>, String>)
    ensures
        match compressed {
            Ok(frame) => zstd_frame_with_dictionary(content@, level, dictionary@) == Some(frame@),
            Err(_) => zstd_frame_with_dictionary(content@, level, dictionary@) is None,
        },
        compressed matches Ok(frame) ==> zstd_first_frame_length(frame@) == Some(frame@.len() as usize),
        compressed matches Ok(frame) ==> forall|limit: u64|
            limit >= content@.len() ==> #[trigger] zstd_read_with_dictionary(frame@, dictionary@, limit) == Some(
                content@,
            ),
{
    let mut encoder = match zstd::stream::Encoder::with_dictionary(Vec::new(), level, dictionary) {
        Ok(encoder) => encoder,
        Err(error) => return Err(error.to_string()),
    };
    match std::io::Write::write_all(&mut encoder, content) {
        Ok(()) => {},
        Err(error) => return Err(error.to_string()),
    }
    match encoder.finish() {
        Ok(frame) => Ok(frame),
        Err(error) => Err(error.to_string()),
    }
}

/// The payload a segment's content compresses to under the encode options.
pub open spec fn payload_outcome(content: Seq<u8>, options: EncodeOptions) -> Option<Seq<u8>> {
    match options.dictionary {
        Some(d) => zstd_frame_with_dictionary(content, options.compression_level, d@.bytes),
        None => zstd_frame(content, options.compression_level),
    }
}

/// The payload a segment's content compresses to, when compression succeeds.
pub open spec fn payload_of(content: Seq<u8>, options: EncodeOptions) -> Seq<u8> {
    payload_outcome(content, options)->Some_0
}

/// The dictionary bytes a segment encoded with these options is read with.
pub open spec fn options_dictionary(options: EncodeOptions) -> Option<Seq<u8>> {
    match options.dictionary {
        Some(d) => Some(d@.bytes),
        None => None,
    }
}

/// A payload is one whole Zstandard frame that reads back to the content with
/// the options' dictionary.
pub open spec fn payload_reads_back(payload: Seq<u8>, options: EncodeOptions, content: Seq<u8>) -> bool {
    &&& zstd_first_frame_length(payload) == Some(payload.len() as usize)
    &&& forall|limit: u64| limit >= content.len() ==> #[trigger] read_content(payload, options_dictionary(options), limit) == Some(content)
}

/// The container flags of a segment encoded with these options.
pub open spec fn encode_flags(options: EncodeOptions) -> u16 {
    if options.dictionary is Some {
        3
    } else {
        2
    }
}

/// The manifest that describes a record batch, its content and its payload.
pub open spec fn manifest_describes(
    m: SegmentManifest,
    records: Seq<EvidenceRecord>,
    content: Seq<u8>,
    payload: Seq<u8>,
    options: EncodeOptions,
) -> bool {
    let content_hex = lower_hex_text(sha256_of(content));
    &&& m.api_version@ == MANIFEST_VERSION@
    &&& m.format_version == 1
    &&& m.segment_id@ == "seg-"@ + content_hex
    &&& m.created_at@ == options.created_at@
    &&& m.schema_set_id@ == SCHEMA_SET_VERSION@
    &&& m.row_count == records.len()
    &&& m.frame_count == 1
    &&& bounds_describe(m.ordering_bounds, records)
    &&& m.classifications@.to_set() == classifications_of(records)
    &&& m.compression.codec@ == "zstd"@
    &&& m.compression.level == options.compression_level
    &&& match options.dictionary {
        Some(d) => m.compression.dictionary == Some(d@.locator),
        None => m.compression.dictionary is None,
    }
    &&& m.compression.frames@ == seq![
        FrameManifest {
            frame_index: 0,
            payload_offset: 0,
            compressed_bytes: payload.len() as u64,
            uncompressed_bytes: content.len() as u64,
            row_start: 0,
            row_count: records.len() as u64,
        },
    ]
    &&& m.integrity.payload_sha256@ == lower_hex_text(sha256_of(payload))
    &&& m.integrity.content_sha256@ == content_hex
}

/// A segment ready to be framed once its manifest is written as canonical JSON.
#[derive(Clone, Debug)]
pub struct PreparedSegment {
    pub manifest: SegmentManifest,
    pub payload: Vec<u8>,
    pub flags: u16,
}

/// Validates and gathers the records, compresses their content, and derives the
/// manifest, given the canonical JSON row of each record.
pub fn prepare_segment(records: &[EvidenceRecord], rows: &[Vec<u8>], options: &EncodeOptions) -> (result: Result<
    PreparedSegment,
    SegmentError,
>)
    requires
        rows@.len() == records@.len(),
    ensures
        records@.len() == 0 || records@.len() > 10000000 ==> result == Err::<PreparedSegment, SegmentError>(
            SegmentError::RowLimitExceeded(records@.len() as u64),
        ),
        0 < records@.len() <= 10000000 && content_outcome(records@, row_bytes(rows@)) is Err ==> (result matches Err(
            x,
        ) && Err::<Seq<u8>, SegmentFault>(x@) == content_outcome(records@, row_bytes(rows@))),
        0 < records@.len() <= 10000000 && content_outcome(records@, row_bytes(rows@)) is Ok ==> ({
            let content = content_outcome(records@, row_bytes(rows@))->Ok_0;
            match payload_outcome(content, *options) {
                None => result matches Err(e) && e is DecompressionFailed,
                Some(payload) => match result {
                    Ok(prepared) => {
                        &&& prepared.payload@ == payload
                        &&& payload_reads_back(payload, *options, content)
                        &&& payload.len() <= 268435456
                        &&& prepared.flags == encode_flags(*options)
                        &&& manifest_describes(prepared.manifest, records@, content, payload, *options)
                        &&& shape_fault(prepared.manifest, prepared.flags, payload.len() as u64) is None
                    },
                    Err(e) => {
                        ||| e == SegmentError::PayloadTooLarge(payload.len() as u64) && payload.len() > 268435456
                        ||| payload.len() <= 268435456 && exists|m: SegmentManifest|
                            #[trigger] manifest_describes(m, records@, content, payload, *options) && shape_fault(
                                m,
                                encode_flags(*options),
                                payload.len() as u64,
                            ) == Some(e@)
                    },
                },
            }
        }),
{
    let row_count = records.len();
    if row_count == 0 || row_count as u64 > MAX_ROWS {
        return Err(SegmentError::RowLimitExceeded(row_count as u64));
    }
    let content = build_content(records, rows)?;
    let compressed = match &options.dictionary {
        Some(material) => zstd_compress_with_dictionary(
            content.as_slice(),
            options.compression_level,
            material.bytes().as_slice(),
        ),
        None => zstd_compress(content.as_slice(), options.compression_level),
    };
    let payload = match compressed {
        Ok(payload) => payload,
        Err(message) => {
            return Err(SegmentError::DecompressionFailed(message));
        },
    };
    let compressed_length = payload.len() as u64;
    if compressed_length > MAX_COMPRESSED_BYTES {
        return Err(SegmentError::PayloadTooLarge(compressed_length));
    }
    let content_hex = sha256_hex(content.as_slice());
    let payload_hex = sha256_hex(payload.as_slice());
    let mut segment_id = "seg-".to_owned();
    segment_id.append(content_hex.as_str());
    let dictionary = match &options.dictionary {
        Some(material) => Some(material.locator().copy()),
        None => None,
    };
    let frames = vec![
        FrameManifest {
            frame_index: 0,
            payload_offset: 0,
            compressed_bytes: compressed_length,
            uncompressed_bytes: content.len() as u64,
            row_start: 0,
            row_count: row_count as u64,
        },
    ];
    let manifest = SegmentManifest {
        api_version: MANIFEST_VERSION.to_owned(),
        format_version: FORMAT_VERSION,
        segment_id,
        created_at: options.created_at.clone(),
        schema_set_id: SCHEMA_SET_VERSION.to_owned(),
        row_count: row_count as u64,
        frame_count: 1,
        ordering_bounds: ordering_bounds(records),
        classifications: classifications(records),
        compression: CompressionManifest {
            codec: "zstd".to_owned(),
            level: options.compression_level,
            dictionary,
            frames,
        },
        integrity: SegmentIntegrity { payload_sha256: payload_hex, content_sha256: content_hex },
    };
    let flags: u16 = if options.dictionary.is_some() { 3 } else { 2 };
    proof {
        assert(manifest.compression.frames@ =~= seq![
            FrameManifest {
                frame_index: 0,
                payload_offset: 0,
                compressed_bytes: payload@.len() as u64,
                uncompressed_bytes: content@.len() as u64,
                row_start: 0,
                row_count: records@.len() as u64,
            },
        ]);
    }
    proof {
        assert(payload@ == payload_of(content@, *options));
        assert(manifest_describes(manifest, records@, content@, payload@, *options));
    }
    match manifest.validate_shape(flags, compressed_length) {
        Ok(()) => {},
        Err(e) => {
            proof {
                assert(exists|m: SegmentManifest|
                    #[trigger] manifest_describes(m, records@, content@, payload_of(content@, *options), *options)
                        && shape_fault(m, encode_flags(*options), payload_of(content@, *options).len() as u64)
                        == Some(e@));
            }
            return Err(e);
        },
    }
    Ok(PreparedSegment { manifest, payload, flags })
}

/// An encoded, immutable segment container.
#[derive(Clone, Debug)]
pub struct EncodedSegment {
    pub manifest: SegmentManifest,
    pub bytes: Vec<u8>,
}

/// Frames a prepared segment with the canonical JSON of its manifest.
pub fn seal_segment(prepared: PreparedSegment, manifest_json: Vec<u8>) -> (result: Result<EncodedSegment, SegmentError>)
    requires
        prepared.payload@.len() <= 268435456,
    ensures
        manifest_json@.len() > 65536 ==> result == Err::<EncodedSegment, SegmentError>(
            SegmentError::HeaderTooLarge(manifest_json@.len() as u64),
        ),
        manifest_json@.len() <= 65536 ==> (result matches Ok(encoded) && encoded.manifest == prepared.manifest
            && encoded.bytes@ == container_bytes(prepared.flags, manifest_json@, prepared.payload@)),
{
    if manifest_json.len() > MAX_MANIFEST_BYTES {
        return Err(SegmentError::HeaderTooLarge(manifest_json.len() as u64));
    }
    let bytes = assemble_container(prepared.flags, manifest_json.as_slice(), prepared.payload.as_slice());
    Ok(EncodedSegment { manifest: prepared.manifest, bytes })
}

/// What the caller read from a manifest's JSON bytes: the manifest and its own
/// canonical JSON, or the reason it could not be read.
pub enum ManifestReading {
    Parsed { manifest: SegmentManifest, canonical: Vec<u8> },
    Invalid(String),
}

/// What inspecting a container gives, given what was read from its manifest bytes:
/// the framing failure; the reading's failure; the manifest's shape failure; a
/// manifest whose JSON is not canonical; a payload whose digest disagrees with the
/// trailer or the manifest; else the manifest.
pub open spec fn inspect_outcome(bytes: Seq<u8>, reading: ManifestReading) -> Result<SegmentManifest, SegmentFault> {
    match open_outcome(bytes) {
        Err(e) => Err(e@),
        Ok(frame) => match reading {
            ManifestReading::Invalid(message) => Err(SegmentFault::ManifestInvalid(message@)),
            ManifestReading::Parsed { manifest, canonical } => {
                let shape = shape_fault(manifest, frame.flags, frame.payload.len() as u64);
                if shape is Some {
                    Err(shape->0)
                } else if canonical@ != frame.manifest {
                    Err(SegmentFault::ManifestInvalid("manifest JSON is not canonical"@))
                } else if frame.payload_digest != sha256_of(frame.payload) || manifest.integrity.payload_sha256@
                    != lower_hex_text(sha256_of(frame.payload)) {
                    Err(SegmentFault::PayloadChecksumMismatch)
                } else {
                    Ok(manifest)
                }
            },
        },
    }
}

/// Inspects a container's framing, manifest and payload digest, given what the
/// caller read from the manifest bytes that `open_container` exposes.
pub fn inspect_segment_bytes(bytes: &[u8], reading: ManifestReading) -> (result: Result<SegmentManifest, SegmentError>)
    ensures
        match result {
            Ok(m) => inspect_outcome(bytes@, reading) == Ok::<SegmentManifest, SegmentFault>(m),
            Err(e) => inspect_outcome(bytes@, reading) == Err::<SegmentManifest, SegmentFault>(e@),
        },
{
    let ghost r = reading;
    let frame = open_container(bytes)?;
    match reading {
        ManifestReading::Invalid(message) => Err(SegmentError::ManifestInvalid(message)),
        ManifestReading::Parsed { manifest, canonical } => {
            manifest.validate_shape(frame.flags, frame.payload.len() as u64)?;
            if !bytes_equal(canonical.as_slice(), frame.manifest.as_slice()) {
                return Err(invalid("manifest JSON is not canonical"));
            }
            let digest = sha256_bytes(frame.payload.as_slice());
            if !bytes_equal(frame.payload_digest.as_slice(), digest.as_slice()) || !text_equal(
                manifest.integrity.payload_sha256.as_str(),
                lower_hex(digest.as_slice()).as_str(),
            ) {
                return Err(SegmentError::PayloadChecksumMismatch);
            }
            Ok(manifest)
        },
    }
}

/// What checking a resolver's answer for a locator gives: its failure, or bytes
/// whose digest is the locator's, else a digest mismatch.
pub open spec fn accepted_dictionary(locator: DictionaryLocator, resolved: Result<Vec<u8>, SegmentError>) -> Result<
    Vec<u8>,
    SegmentError,
> {
    match resolved {
        Err(e) => Err(e),
        Ok(bytes) => if digest_matches(bytes@, locator.digest@) {
            Ok(bytes)
        } else {
            Err(SegmentError::DictionaryDigestMismatch(locator))
        },
    }
}

/// Checks what a resolver gave for a locator: its failure passes through, and
/// bytes are accepted only when their digest is the locator's.
pub fn accept_dictionary(locator: &DictionaryLocator, resolved: Result<Vec<u8>, SegmentError>) -> (result: Result<
    Vec<u8>,
    SegmentError,
>)
    ensures
        result == accepted_dictionary(*locator, resolved),
{
    let bytes = resolved?;
    let digest = sha256_hex(bytes.as_slice());
    if !text_equal(digest.as_str(), locator.digest.as_str()) {
        return Err(SegmentError::DictionaryDigestMismatch(locator.copy()));
    }
    Ok(bytes)
}

/// Resolves the dictionary a manifest names, if any: no dictionary when it names
/// none, else what `accept_dictionary` makes of one answer of the resolver.
pub fn resolve_dictionary<R: DictionaryResolver>(manifest: &SegmentManifest, resolver: &R) -> (result: Result<
    Option<Vec<u8>>,
    SegmentError,
>)
    ensures
        match manifest.compression.dictionary {
            None => result == Ok::<Option<Vec<u8>>, SegmentError>(None),
            Some(locator) => exists|resolved: Result<Vec<u8>, SegmentError>|
                #[trigger] call_ensures(R::resolve, (resolver, &locator), resolved) && result == match accepted_dictionary(
                    locator,
                    resolved,
                ) {
                    Ok(bytes) => Ok::<Option<Vec<u8>>, SegmentError>(Some(bytes)),
                    Err(e) => Err(e),
                },
        },
{
    match &manifest.compression.dictionary {
        None => Ok(None),
        Some(locator) => {
            let resolved = resolver.resolve(locator);
            let bytes = accept_dictionary(locator, resolved)?;
            Ok(Some(bytes))
        },
    }
}

/// The length of the first Zstandard frame of a payload, or `None` when no frame
/// can be found there.
pub uninterp spec fn zstd_first_frame_length(payload: Seq<u8>) -> Option<usize>;

/// What reading at most `limit` bytes from a single-frame Zstandard decoder over
/// a payload gives: the bytes read, or `None` when decoding fails.
pub uninterp spec fn zstd_read(payload: Seq<u8>, limit: u64) -> Option<Seq<u8>>;

/// What reading at most `limit` bytes from a single-frame Zstandard decoder over
/// a payload, with a dictionary, gives: the bytes read, or `None` when decoding
/// fails.
pub uninterp spec fn zstd_read_with_dictionary(payload: Seq<u8>, dictionary: Seq<u8>, limit: u64) -> Option<
    Seq<u8>,
>;

/// Calls `zstd::zstd_safe::find_frame_compressed_size` on the payload: a length is
/// the named `zstd_first_frame_length` of the payload, and a failure, which
/// carries `get_error_name` of its code, means that name is `None`.
#[verifier::external_body]
fn zstd_frame_length(payload: &[u8]) -> (length: Result<usize, String>)
    ensures
        match length {
            Ok(n) => zstd_first_frame_length(payload@) == Some(n),
            Err(_) => zstd_first_frame_length(payload@) is None,
        },
{
    match zstd::zstd_safe::find_frame_compressed_size(payload) {
        Ok(n) => Ok(n),
        Err(code) => Err(zstd::zstd_safe::get_error_name(code).to_owned()),
    }
}

/// The first `limit` bytes, or all of them when fewer.
pub open spec fn bounded(content: Seq<u8>, limit: u64) -> Seq<u8> {
    if content.len() <= limit {
        content
    } else {
        content.subrange(0, limit as int)
    }
}

/// Reads at most `limit` bytes from a `zstd::stream::read::Decoder` in
/// single-frame mode over the payload: the bytes read are the named `zstd_read`
/// of the payload and limit, and a failure, which carries the I/O error's text,
/// means that name is `None`.
#[verifier::external_body]
fn zstd_decompress(payload: &[u8], limit: u64) -> (content: Result<Vec<u8>, String>)
    ensures
        match content {
            Ok(c) => zstd_read(payload@, limit) == Some(c@),
            Err(_) => zstd_read(payload@, limit) is None,
        },
{
    let decoder = match zstd::stream::read::Decoder::new(std::io::Cursor::new(payload)) {
        Ok(decoder) => decoder.single_frame(),
        Err(error) => return Err(error.to_string()),
    };
    let mut content = Vec::new();
    match std::io::Read::read_to_end(&mut std::io::Read::take(decoder, limit), &mut content) {
        Ok(_) => Ok(content),
        Err(error) => Err(error.to_string()),
    }
}

/// Reads as `zstd_decompress` does, through `Decoder::with_dictionary`: the bytes
/// read are the named `zstd_read_with_dictionary` of the payload, dictionary and
/// limit, and a failure means that name is `None`.
#[verifier::external_body]
fn zstd_decompress_with_dictionary(payload: &[u8], dictionary: &[u8], limit: u64) -> (content: Result<Vec<u8>, String>)
    ensures
        match content {
            Ok(c) => zstd_read_with_dictionary(payload@, dictionary@, limit) == Some(c@),
            Err(_) => zstd_read_with_dictionary(payload@, dictionary@, limit) is None,
        },
{
    let decoder = match zstd::stream::read::Decoder::with_dictionary(std::io::Cursor::new(payload), dictionary) {
        Ok(decoder) => decoder.single_frame(),
        Err(error) => return Err(error.to_string()),
    };
    let mut content = Vec::new();
    match std::io::Read::read_to_end(&mut std::io::Read::take(decoder, limit), &mut content) {
        Ok(_) => Ok(content),
        Err(error) => Err(error.to_string()),
    }
}

/// What reading a payload, with or without a dictionary, gives.
pub open spec fn read_content(payload: Seq<u8>, dictionary: Option<Seq<u8>>, limit: u64) -> Option<Seq<u8>> {
    match dictionary {
        Some(d) => zstd_read_with_dictionary(payload, d, limit),
        None => zstd_read(payload, limit),
    }
}

/// The bytes of an optional dictionary.
pub open spec fn dictionary_bytes(dictionary: Option<&[u8]>) -> Option<Seq<u8>> {
    match dictionary {
        Some(d) => Some(d@),
        None => None,
    }
}

/// The read bound of decompression: one byte past the content bound, so that an
/// oversized content is seen.
pub open spec fn read_limit() -> u64 {
    268435457
}

/// What decompressing a payload and checking it against its manifest gives,
/// apart from the text of a failure the decompressor reports: `None` for such a
/// failure; a payload holding more than its first frame; content past the bound;
/// content whose length or digest disagrees with the manifest; else the content.
pub open spec fn decompress_outcome(m: SegmentManifest, payload: Seq<u8>, dictionary: Option<Seq<u8>>) -> Option<
    Result<Seq<u8>, SegmentFault>,
> {
    match zstd_first_frame_length(payload) {
        None => None,
        Some(n) => if n != payload.len() {
            Some(Err(SegmentFault::DecompressionFailed("format v1 payload contains more than one Zstandard frame"@)))
        } else {
            match read_content(payload, dictionary, read_limit()) {
                None => None,
                Some(c) => if c.len() > 268435456 {
                    Some(Err(SegmentFault::ContentTooLarge(c.len() as u64)))
                } else if c.len() != m.compression.frames@[0].uncompressed_bytes || !digest_matches(
                    c,
                    m.integrity.content_sha256@,
                ) {
                    Some(Err(SegmentFault::ContentChecksumMismatch))
                } else {
                    Some(Ok(c))
                },
            }
        },
    }
}

/// Decompresses a segment's payload and checks the content against its manifest:
/// exactly one frame, no more content than the bound, the declared length and the
/// declared digest.
pub fn decompress_payload(manifest: &SegmentManifest, payload: &[u8], dictionary: Option<&[u8]>) -> (result:
    Result<Vec<u8>, SegmentError>)
    requires
        manifest.compression.frames@.len() == 1,
    ensures
        match decompress_outcome(*manifest, payload@, dictionary_bytes(dictionary)) {
            None => result matches Err(SegmentError::DecompressionFailed(_)),
            Some(Ok(c)) => result matches Ok(content) && content@ == c,
            Some(Err(f)) => result matches Err(e) && e@ == f,
        },
{
    match zstd_frame_length(payload) {
        Ok(n) => {
            if n != payload.len() {
                return Err(SegmentError::DecompressionFailed(
                    "format v1 payload contains more than one Zstandard frame".to_owned(),
                ));
            }
        },
        Err(message) => {
            return Err(SegmentError::DecompressionFailed(message));
        },
    }
    let decoded = match dictionary {
        Some(d) => zstd_decompress_with_dictionary(payload, d, MAX_UNCOMPRESSED_BYTES + 1),
        None => zstd_decompress(payload, MAX_UNCOMPRESSED_BYTES + 1),
    };
    let content = match decoded {
        Ok(content) => content,
        Err(message) => {
            return Err(SegmentError::DecompressionFailed(message));
        },
    };
    let actual_length = content.len() as u64;
    if actual_length > MAX_UNCOMPRESSED_BYTES {
        return Err(SegmentError::ContentTooLarge(actual_length));
    }
    if actual_length != manifest.compression.frames[0].uncompressed_bytes || !text_equal(
        sha256_hex(content.as_slice()).as_str(),
        manifest.integrity.content_sha256.as_str(),
    ) {
        return Err(SegmentError::ContentChecksumMismatch);
    }
    Ok(content)
}

/// The pieces of bytes between line feeds, as `split` on `[u8]` gives them: one
/// more piece than there are line feeds.
pub open spec fn split_lines(b: Seq<u8>) -> Seq<Seq<u8>>
    decreases b.len(),
{
    if b.len() == 0 {
        seq![Seq::<u8>::empty()]
    } else {
        let before = split_lines(b.drop_last());
        if b.last() == 10 {
            before.push(Seq::empty())
        } else {
            before.update(before.len() - 1, before.last().push(b.last()))
        }
    }
}

proof fn lemma_split_lines_nonempty(b: Seq<u8>)
    ensures
        split_lines(b).len() >= 1,
    decreases b.len(),
{
    if b.len() > 0 {
        lemma_split_lines_nonempty(b.drop_last());
    }
}

/// Splits bytes at every line feed.
pub fn split_lines_of(bytes: &[u8]) -> (pieces: Vec<Vec<u8>>)
    ensures
        row_bytes(pieces@) == split_lines(bytes@),
{
    let mut pieces: Vec<Vec<u8>> = Vec::new();
    pieces.push(Vec::new());
    let mut i: usize = 0;
    proof {
        assert(bytes@.subrange(0, 0).len() == 0);
        assert(row_bytes(pieces@) =~= split_lines(bytes@.subrange(0, 0)));
    }
    while i < bytes.len()
        invariant
            0 <= i <= bytes@.len(),
            pieces@.len() >= 1,
            row_bytes(pieces@) == split_lines(bytes@.subrange(0, i as int)),
        decreases bytes@.len() - i,
    {
        let ghost before = row_bytes(pieces@);
        let b = bytes[i];
        proof {
            let next = bytes@.subrange(0, i + 1);
            assert(next.drop_last() =~= bytes@.subrange(0, i as int));
            assert(next.last() == b);
        }
        if b == 10u8 {
            pieces.push(Vec::new());
            assert(row_bytes(pieces@) =~= before.push(Seq::empty()));
        } else {
            let mut last = pieces.pop().unwrap();
            last.push(b);
            pieces.push(last);
            assert(row_bytes(pieces@) =~= before.update(before.len() - 1, before.last().push(b)));
        }
        i = i + 1;
    }
    assert(bytes@.subrange(0, bytes@.len() as int) =~= bytes@);
    pieces
}

/// What the caller read from one row's JSON bytes: the record and its own
/// canonical JSON, or the reason it could not be read.
pub enum RowReading {
    Parsed { record: EvidenceRecord, canonical: Vec<u8> },
    Invalid(String),
}

/// Why row `i` is rejected: it is blank, unreadable, breaks the evidence schema,
/// or is not its record's canonical JSON.
pub open spec fn row_fault(piece: Seq<u8>, reading: RowReading, i: int) -> Option<SegmentFault> {
    if piece.len() == 0 {
        Some(SegmentFault::RowInvalid { row: i as u64, message: "blank row"@ })
    } else {
        match reading {
            RowReading::Invalid(message) => Some(SegmentFault::RowInvalid { row: i as u64, message: message@ }),
            RowReading::Parsed { record, canonical } => match crate::schema::record_fault(record) {
                Some(f) => Some(SegmentFault::RowInvalid { row: i as u64, message: schema_message_of(f) }),
                None => if canonical@ != piece {
                    Some(SegmentFault::RowInvalid { row: i as u64, message: "row JSON is not canonical"@ })
                } else {
                    None
                },
            },
        }
    }
}

/// The rows of JSONL content, without the final line feed.
pub open spec fn content_rows(content: Seq<u8>) -> Seq<Seq<u8>> {
    split_lines(content.drop_last())
}

/// The row checks of JSONL content, in row order.
pub open spec fn row_faults(content: Seq<u8>, readings: Seq<RowReading>) -> Seq<Option<SegmentFault>> {
    Seq::new(content_rows(content).len(), |i: int| row_fault(content_rows(content)[i], readings[i], i))
}

/// The record of a row that was read.
pub open spec fn reading_record(reading: RowReading) -> EvidenceRecord {
    match reading {
        RowReading::Parsed { record, .. } => record,
        RowReading::Invalid(_) => arbitrary(),
    }
}

/// What decoding JSONL content gives: content that does not end with a line feed;
/// the first rejected row; a row count other than the manifest's; else the records.
pub open spec fn rows_outcome(content: Seq<u8>, expected_rows: u64, readings: Seq<RowReading>) -> Result<
    Seq<EvidenceRecord>,
    SegmentFault,
> {
    if content.len() == 0 || content.last() != 10 {
        Err(
            SegmentFault::RowInvalid {
                row: if expected_rows == 0 {
                    0
                } else {
                    (expected_rows - 1) as u64
                },
                message: "canonical JSONL must end with LF"@,
            },
        )
    } else if first_some(row_faults(content, readings)) is Some {
        Err(first_some(row_faults(content, readings))->0)
    } else if content_rows(content).len() != expected_rows {
        Err(
            SegmentFault::RowInvalid {
                row: content_rows(content).len() as u64,
                message: "manifest declares "@ + decimal_text(expected_rows as nat) + " rows, decoded "@
                    + decimal_text(content_rows(content).len()),
            },
        )
    } else {
        Ok(readings.map_values(|r: RowReading| reading_record(r)))
    }
}

/// Checks one row against what was read from it.
fn check_row(piece: &Vec<u8>, reading: &RowReading, i: usize) -> (fault: Option<SegmentError>)
    ensures
        match fault {
            Some(e) => row_fault(piece@, *reading, i as int) == Some(e@),
            None => row_fault(piece@, *reading, i as int) is None,
        },
{
    if piece.len() == 0 {
        return Some(SegmentError::RowInvalid { row: i as u64, message: "blank row".to_owned() });
    }
    match reading {
        RowReading::Invalid(message) => Some(SegmentError::RowInvalid { row: i as u64, message: message.clone() }),
        RowReading::Parsed { record, canonical } => {
            match record.validate() {
                Err(e) => {
                    return Some(SegmentError::RowInvalid { row: i as u64, message: e.message() });
                },
                Ok(()) => {},
            }
            if !bytes_equal(canonical.as_slice(), piece.as_slice()) {
                return Some(SegmentError::RowInvalid { row: i as u64, message: "row JSON is not canonical".to_owned() });
            }
            None
        },
    }
}

/// Decodes JSONL content into records, given what the caller read from each row
/// that `split_lines_of` gives for the content without its final line feed. Also
/// returns each record's canonical JSON.
pub fn decode_rows(content: &[u8], expected_rows: u64, readings: Vec<RowReading>) -> (result: Result<
    (Vec<EvidenceRecord>, Vec<Vec<u8>>),
    SegmentError,
>)
    requires
        content@.len() > 0 && content@.last() == 10 ==> readings@.len() == content_rows(content@).len(),
    ensures
        match result {
            Ok((records, rows)) => {
                &&& rows_outcome(content@, expected_rows, readings@) == Ok::<Seq<EvidenceRecord>, SegmentFault>(
                    records@,
                )
                &&& row_bytes(rows@) == content_rows(content@)
            },
            Err(e) => rows_outcome(content@, expected_rows, readings@) == Err::<Seq<EvidenceRecord>, SegmentFault>(
                e@,
            ),
        },
{
    let n = content.len();
    if n == 0 || content[n - 1] != 10u8 {
        let row = if expected_rows == 0 { 0 } else { expected_rows - 1 };
        return Err(SegmentError::RowInvalid { row, message: "canonical JSONL must end with LF".to_owned() });
    }
    let pieces = split_lines_of(&content[0..n - 1]);
    proof {
        assert(content@.subrange(0, n - 1) =~= content@.drop_last());
    }
    let ghost faults = row_faults(content@, readings@);
    let ghost all = readings@;
    let mut rest = readings;
    let mut records: Vec<EvidenceRecord> = Vec::new();
    let mut i: usize = 0;
    proof {
        assert(rest@ =~= all.subrange(0, all.len() as int));
    }
    while i < pieces.len()
        invariant
            0 <= i <= pieces@.len(),
            content@.len() > 0 && content@.last() == 10,
            row_bytes(pieces@) == content_rows(content@),
            all == readings@,
            all.len() == pieces@.len(),
            faults == row_faults(content@, all),
            rest@ == all.subrange(i as int, all.len() as int),
            records@.len() == i,
            forall|k: int| 0 <= k < i ==> (#[trigger] faults[k]) is None,
            forall|k: int| 0 <= k < i ==> #[trigger] records@[k] == reading_record(all[k]),
        decreases pieces@.len() - i,
    {
        proof {
            assert(rest@[0] == all[i as int]);
            assert(row_bytes(pieces@)[i as int] == pieces@[i as int]@);
            assert(faults[i as int] == row_fault(content_rows(content@)[i as int], all[i as int], i as int));
        }
        let reading = rest.remove(0);
        proof {
            assert(rest@ =~= all.subrange(i + 1, all.len() as int));
        }
        match check_row(&pieces[i], &reading, i) {
            Some(e) => {
                proof {
                    lemma_first_some_skip(faults, i as int);
                    assert(faults.skip(i as int)[0] == faults[i as int]);
                }
                return Err(e);
            },
            None => {},
        }
        match reading {
            RowReading::Parsed { record, canonical } => {
                records.push(record);
            },
            RowReading::Invalid(_) => {
                proof {
                    assert(false);
                }
            },
        }
        i = i + 1;
    }
    proof {
        lemma_first_some_skip(faults, i as int);
        assert(faults.skip(i as int).len() == 0);
    }
    if pieces.len() as u64 != expected_rows {
        let mut message = "manifest declares ".to_owned();
        message.append(decimal(expected_rows).as_str());
        message.append(" rows, decoded ");
        message.append(decimal(pieces.len() as u64).as_str());
        return Err(SegmentError::RowInvalid { row: pieces.len() as u64, message });
    }
    proof {
        assert(records@ =~= all.map_values(|r: RowReading| reading_record(r)));
    }
    Ok((records, pieces))
}

/// A decoded segment: its manifest and its records in row order.
#[derive(Clone, Debug, PartialEq)]
pub struct DecodedSegment {
    pub manifest: SegmentManifest,
    pub records: Vec<EvidenceRecord>,
}

/// Decodes a segment's checked content into records and validates every manifest
/// field derived from them.
pub fn finish_decode(manifest: SegmentManifest, content: &[u8], readings: Vec<RowReading>) -> (result: Result<
    DecodedSegment,
    SegmentError,
>)
    requires
        content@.len() > 0 && content@.last() == 10 ==> readings@.len() == content_rows(content@).len(),
    ensures
        match rows_outcome(content@, manifest.row_count, readings@) {
            Err(e) => (result matches Err(x) && x@ == e),
            Ok(records) => match result {
                Ok(decoded) => decoded.manifest == manifest && decoded.records@ == records && records_fault(
                    manifest,
                    records,
                    content_rows(content@),
                ) is None,
                Err(e) => records_fault(manifest, records, content_rows(content@)) == Some(e@),
            },
        },
{
    let (records, rows) = decode_rows(content, manifest.row_count, readings)?;
    proof {
        assert(rows@.len() == row_bytes(rows@).len());
        assert(records@.len() == readings@.len());
    }
    manifest.validate_records(records.as_slice(), rows.as_slice())?;
    Ok(DecodedSegment { manifest, records })
}

/// A container sealed from a manifest whose shape holds for its flags and payload,
/// and whose payload digest is the payload's, inspects back to that manifest when
/// the manifest bytes read back to it with themselves as canonical JSON.
pub proof fn lemma_inspect_round_trip(
    flags: u16,
    manifest: SegmentManifest,
    manifest_json: Seq<u8>,
    canonical: Vec<u8>,
    payload: Seq<u8>,
)
    requires
        flags <= 3,
        manifest_json.len() <= 65536,
        payload.len() <= 268435456,
        sha256_of(manifest_json).len() == 32,
        sha256_of(payload).len() == 32,
        canonical@ == manifest_json,
        shape_fault(manifest, flags, payload.len() as u64) is None,
        manifest.integrity.payload_sha256@ == lower_hex_text(sha256_of(payload)),
    ensures
        inspect_outcome(
            container_bytes(flags, manifest_json, payload),
            ManifestReading::Parsed { manifest, canonical },
        ) == Ok::<SegmentManifest, SegmentFault>(manifest),
{
    lemma_container_round_trip(flags, manifest_json, payload);
}

/// Content gathered from records is their rows, each followed by a line feed,
/// and every record keeps the evidence schema.
proof fn lemma_content_is_jsonl(records: Seq<EvidenceRecord>, rows: Seq<Seq<u8>>)
    requires
        records.len() == rows.len(),
        content_outcome(records, rows) is Ok,
    ensures
        content_outcome(records, rows) == Ok::<Seq<u8>, SegmentFault>(jsonl(rows)),
        jsonl(rows).len() <= 268435456,
        forall|i: int| 0 <= i < records.len() ==> crate::schema::record_fault(#[trigger] records[i]) is None,
    decreases records.len(),
{
    reveal(content_outcome);
    if records.len() > 0 {
        lemma_content_is_jsonl(records.drop_last(), rows.drop_last());
        assert forall|i: int| 0 <= i < records.len() implies crate::schema::record_fault(#[trigger] records[i])
            is None by {
            if i < records.len() - 1 {
                assert(records.drop_last()[i] == records[i]);
            }
        }
    }
}

/// Bytes without a line feed are one piece.
proof fn lemma_split_single(s: Seq<u8>)
    requires
        !s.contains(10u8),
    ensures
        split_lines(s) == seq![s],
    decreases s.len(),
{
    if s.len() > 0 {
        assert(!s.drop_last().contains(10u8)) by {
            if s.drop_last().contains(10u8) {
                let k = choose|k: int| 0 <= k < s.drop_last().len() && s.drop_last()[k] == 10u8;
                assert(s[k] == 10u8);
            }
        }
        lemma_split_single(s.drop_last());
        assert(s.last() != 10u8) by {
            assert(s[s.len() - 1] == s.last());
        }
        assert(s.drop_last().push(s.last()) =~= s);
        assert(seq![s.drop_last()].update(0, s.drop_last().push(s.last())) =~= seq![s]);
    } else {
        assert(s =~= Seq::<u8>::empty());
    }
}

/// A line feed followed by bytes without one adds those bytes as a last piece.
proof fn lemma_split_after_line_feed(prefix: Seq<u8>, s: Seq<u8>)
    requires
        !s.contains(10u8),
    ensures
        split_lines(prefix + seq![10u8] + s) == split_lines(prefix).push(s),
    decreases s.len(),
{
    let b = prefix + seq![10u8] + s;
    if s.len() == 0 {
        assert(b.drop_last() =~= prefix);
        assert(b.last() == 10u8);
        assert(s =~= Seq::<u8>::empty());
    } else {
        assert(!s.drop_last().contains(10u8)) by {
            if s.drop_last().contains(10u8) {
                let k = choose|k: int| 0 <= k < s.drop_last().len() && s.drop_last()[k] == 10u8;
                assert(s[k] == 10u8);
            }
        }
        lemma_split_after_line_feed(prefix, s.drop_last());
        assert(b.drop_last() =~= prefix + seq![10u8] + s.drop_last());
        assert(b.last() == s.last());
        assert(s.last() != 10u8) by {
            assert(s[s.len() - 1] == s.last());
        }
        let before = split_lines(prefix).push(s.drop_last());
        assert(before.update(before.len() - 1, before.last().push(s.last())) =~= split_lines(prefix).push(s)) by {
            assert(s.drop_last().push(s.last()) =~= s);
        }
    }
}

/// The rows of JSONL content are the rows it was gathered from, when no row holds
/// a line feed.
pub proof fn lemma_jsonl_rows(rows: Seq<Seq<u8>>)
    requires
        rows.len() > 0,
        forall|i: int| 0 <= i < rows.len() ==> !(#[trigger] rows[i]).contains(10u8),
    ensures
        content_rows(jsonl(rows)) == rows,
    decreases rows.len(),
{
    let r = rows.drop_last();
    let x = rows.last();
    assert(!x.contains(10u8)) by {
        assert(rows[rows.len() - 1] == x);
    }
    assert(jsonl(rows).drop_last() =~= jsonl(r) + x);
    if r.len() == 0 {
        assert(jsonl(r) =~= Seq::<u8>::empty());
        assert(jsonl(r) + x =~= x);
        lemma_split_single(x);
        assert(rows =~= seq![x]);
    } else {
        assert forall|i: int| 0 <= i < r.len() implies !(#[trigger] r[i]).contains(10u8) by {
            assert(r[i] == rows[i]);
        }
        lemma_jsonl_rows(r);
        let j = jsonl(r);
        assert(j =~= j.drop_last() + seq![10u8]) by {
            assert(j.last() == 10u8);
        }
        assert(j + x =~= j.drop_last() + seq![10u8] + x);
        lemma_split_after_line_feed(j.drop_last(), x);
        assert(r.push(x) =~= rows);
    }
}

/// The container bytes a batch seals to, given the canonical JSON of its manifest.
pub open spec fn sealed_bytes(options: EncodeOptions, manifest_json: Seq<u8>, content: Seq<u8>) -> Seq<u8> {
    container_bytes(encode_flags(options), manifest_json, payload_of(content, options))
}

/// Reading each row gave back its record, with the row as its canonical JSON.
pub open spec fn rows_read_back(readings: Seq<RowReading>, records: Seq<EvidenceRecord>, rows: Seq<Seq<u8>>) -> bool {
    &&& readings.len() == records.len()
    &&& forall|i: int|
        0 <= i < readings.len() ==> (#[trigger] readings[i] matches RowReading::Parsed { record, canonical }
            && record == records[i] && canonical@ == rows[i])
}

/// What is sealed reads back: a batch of valid records, gathered from canonical
/// rows (none blank, none holding a line feed), compressed into a payload that
/// reads back to its content and described by a manifest whose shape holds, seals
/// to a container that inspects to that manifest, whose payload decompresses to
/// the content, whose rows decode to the same records in the same order, and
/// whose manifest agrees with them, when the manifest bytes and each row read
/// back as themselves.
pub proof fn lemma_segment_round_trip(
    records: Seq<EvidenceRecord>,
    rows: Seq<Seq<u8>>,
    options: EncodeOptions,
    m: SegmentManifest,
    manifest_json: Seq<u8>,
    canonical: Vec<u8>,
    readings: Seq<RowReading>,
)
    requires
        records.len() == rows.len(),
        forall|i: int| 0 <= i < rows.len() ==> (#[trigger] rows[i]).len() > 0 && !rows[i].contains(10u8),
        content_outcome(records, rows) is Ok,
        manifest_describes(
            m,
            records,
            content_outcome(records, rows)->Ok_0,
            payload_of(content_outcome(records, rows)->Ok_0, options),
            options,
        ),
        shape_fault(
            m,
            encode_flags(options),
            payload_of(content_outcome(records, rows)->Ok_0, options).len() as u64,
        ) is None,
        payload_reads_back(
            payload_of(content_outcome(records, rows)->Ok_0, options),
            options,
            content_outcome(records, rows)->Ok_0,
        ),
        payload_of(content_outcome(records, rows)->Ok_0, options).len() <= 268435456,
        manifest_json.len() <= 65536,
        sha256_of(manifest_json).len() == 32,
        sha256_of(payload_of(content_outcome(records, rows)->Ok_0, options)).len() == 32,
        canonical@ == manifest_json,
        rows_read_back(readings, records, rows),
    ensures
        ({
            let content = content_outcome(records, rows)->Ok_0;
            let bytes = sealed_bytes(options, manifest_json, content);
            &&& open_outcome(bytes) matches Ok(frame) && frame.payload == payload_of(content, options)
            &&& inspect_outcome(bytes, ManifestReading::Parsed { manifest: m, canonical }) == Ok::<
                SegmentManifest,
                SegmentFault,
            >(m)
            &&& m.compression.frames@.len() == 1
            &&& decompress_outcome(m, payload_of(content, options), options_dictionary(options)) == Some(
                Ok::<Seq<u8>, SegmentFault>(content),
            )
            &&& content.len() > 0 && content.last() == 10
            &&& content_rows(content) == rows
            &&& rows_outcome(content, m.row_count, readings) == Ok::<Seq<EvidenceRecord>, SegmentFault>(records)
            &&& records_fault(m, records, content_rows(content)) is None
        }),
{
    let content = content_outcome(records, rows)->Ok_0;
    let payload = payload_of(content, options);
    let flags = encode_flags(options);
    lemma_content_is_jsonl(records, rows);
    assert(content == jsonl(rows));
    lemma_container_round_trip(flags, manifest_json, payload);
    lemma_inspect_round_trip(flags, m, manifest_json, canonical, payload);
    // The manifest's shape holds, so the batch is non-empty and within bounds.
    assert(m.row_count == records.len());
    assert(0 < records.len() <= 10000000);
    // The payload is one frame that reads back to the content.
    assert(read_content(payload, options_dictionary(options), read_limit()) == Some(content)) by {
        assert(content.len() <= 268435456);
    }
    assert(digest_matches(content, m.integrity.content_sha256@));
    // The content is the rows, each followed by a line feed.
    lemma_jsonl_rows(rows);
    assert(jsonl(rows).last() == 10u8) by {
        reveal_with_fuel(jsonl, 2);
    }
    // Every row reads back as its record.
    let faults = row_faults(content, readings);
    assert forall|i: int| 0 <= i < faults.len() implies (#[trigger] faults[i]) is None by {
        assert(content_rows(content)[i] == rows[i]);
        assert(rows[i].len() > 0);
        assert(crate::schema::record_fault(records[i]) is None);
        assert(readings[i] matches RowReading::Parsed { record, canonical } && record == records[i]
            && canonical@ == rows[i]);
    }
    lemma_first_some_skip(faults, faults.len() as int);
    assert(faults.skip(faults.len() as int).len() == 0);
    assert(readings.map_values(|r: RowReading| reading_record(r)) =~= records);
    // The manifest agrees with the records it was derived from.
    assert(inferred_flags(m) == flags);
    assert(declared_payload_length(m) == payload.len() as u64);
    reveal_strlit("seg-");
    let id = "seg-"@ + lower_hex_text(sha256_of(content));
    assert(segment_id_outcome(records, rows) == Ok::<Seq<char>, SegmentFault>(id));
    assert(id.subrange(4, id.len() as int) =~= lower_hex_text(sha256_of(content)));
}

/// A segment's identity is the address of its content: batches that gather to the
/// same content get the same segment id, whatever their options, and so seal to
/// the same file name in a directory.
pub proof fn lemma_identity_is_content_address(
    records1: Seq<EvidenceRecord>,
    rows1: Seq<Seq<u8>>,
    options1: EncodeOptions,
    m1: SegmentManifest,
    records2: Seq<EvidenceRecord>,
    rows2: Seq<Seq<u8>>,
    options2: EncodeOptions,
    m2: SegmentManifest,
    directory: Seq<char>,
)
    requires
        content_outcome(records1, rows1) is Ok,
        content_outcome(records1, rows1) == content_outcome(records2, rows2),
        manifest_describes(
            m1,
            records1,
            content_outcome(records1, rows1)->Ok_0,
            payload_of(content_outcome(records1, rows1)->Ok_0, options1),
            options1,
        ),
        manifest_describes(
            m2,
            records2,
            content_outcome(records2, rows2)->Ok_0,
            payload_of(content_outcome(records2, rows2)->Ok_0, options2),
            options2,
        ),
    ensures
        m1.segment_id@ == m2.segment_id@,
        m1.integrity.content_sha256@ == m2.integrity.content_sha256@,
        segment_path_text(directory, m1.segment_id@) == segment_path_text(directory, m2.segment_id@),
{
}

} // verus!
