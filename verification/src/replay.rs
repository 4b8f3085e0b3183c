//! Deterministic, side-effect-free evidence replay and correction semantics.
//!
//! A complete admitted history replays to one canonical state: observations,
//! corrections and frontiers keyed by id, each observation with its materialized
//! disposition, qualifications and correction history, and the semantic conflicts
//! that replay keeps explicit instead of resolving.
use vstd::prelude::*;

use crate::ordering::{
    acyclic, conflict_free, describes_ordering_failure, is_known, relation_of, OrderRelation, OrderingError, OrderingPoint,
    PartialOrder, PointView, views,
};
use crate::schema::{
    correction_point, fault_of, first_some, lemma_first_some_found, lemma_first_some_from, lemma_first_some_skip, observation_point,
    record_fault, record_id_of, Correction, CorrectionOperation, EvidenceRecord, Frontier,
    Observation, SchemaError, SchemaFault,
};
use crate::text::{
    compare_text, is_least_text, lemma_text_lt_asymmetric, lemma_text_lt_irreflexive,
    lemma_text_lt_total, lemma_text_lt_transitive, text_equal, text_lt, texts, TextOrder, TextSet,
};

verus! {

/// Values identified by a text key.
pub trait Keyed {
    spec fn key_of(&self) -> Seq<char>;

    fn key(&self) -> (k: &str)
        ensures
            k@ == self.key_of(),
    ;
}

impl Keyed for Observation {
    open spec fn key_of(&self) -> Seq<char> {
        self.observation_id@
    }

    fn key(&self) -> (k: &str) {
        self.observation_id.as_str()
    }
}

impl Keyed for Correction {
    open spec fn key_of(&self) -> Seq<char> {
        self.correction_id@
    }

    fn key(&self) -> (k: &str) {
        self.correction_id.as_str()
    }
}

impl Keyed for Frontier {
    open spec fn key_of(&self) -> Seq<char> {
        self.frontier_id@
    }

    fn key(&self) -> (k: &str) {
        self.frontier_id.as_str()
    }
}

/// Keys strictly increase in byte order: a map kept in `BTreeMap` order.
pub open spec fn sorted_by_key<T: Keyed>(s: Seq<T>) -> bool {
    forall|i: int, j: int| 0 <= i < j < s.len() ==> text_lt(#[trigger] s[i].key_of(), #[trigger] s[j].key_of())
}

/// Two key-sorted sequences with the same elements are equal.
pub proof fn lemma_sorted_by_key_unique<T: Keyed>(a: Seq<T>, b: Seq<T>)
    requires
        sorted_by_key(a),
        sorted_by_key(b),
        a.to_set() == b.to_set(),
    ensures
        a == b,
    decreases a.len(),
{
    if a.len() == 0 {
        if b.len() > 0 {
            assert(b.to_set().contains(b[0]));
            assert(false);
        }
        assert(a =~= b);
    } else if b.len() == 0 {
        assert(a.to_set().contains(a[0]));
        assert(false);
    } else {
        assert(a.to_set().contains(a[0]));
        assert(b.to_set().contains(b[0]));
        assert(b.contains(a[0]));
        assert(a.contains(b[0]));
        let ia = choose|i: int| 0 <= i < a.len() && a[i] == b[0];
        let ib = choose|i: int| 0 <= i < b.len() && b[i] == a[0];
        if a[0] != b[0] {
            assert(ia > 0);
            assert(ib > 0);
            assert(text_lt(a[0].key_of(), a[ia].key_of()));
            assert(text_lt(b[0].key_of(), b[ib].key_of()));
            lemma_text_lt_asymmetric(a[0].key_of(), b[0].key_of());
        }
        let ta = a.drop_first();
        let tb = b.drop_first();
        assert forall|x: T| ta.to_set().contains(x) implies tb.to_set().contains(x) by {
            let k = choose|k: int| 0 <= k < ta.len() && ta[k] == x;
            assert(a[k + 1] == x);
            assert(a.to_set().contains(x));
            assert(b.contains(x));
            let m = choose|m: int| 0 <= m < b.len() && b[m] == x;
            if m == 0 {
                lemma_text_lt_irreflexive(a[0].key_of());
                assert(text_lt(a[0].key_of(), a[k + 1].key_of()));
            }
            assert(tb[m - 1] == x);
        }
        assert forall|x: T| tb.to_set().contains(x) implies ta.to_set().contains(x) by {
            let k = choose|k: int| 0 <= k < tb.len() && tb[k] == x;
            assert(b[k + 1] == x);
            assert(b.to_set().contains(x));
            assert(a.contains(x));
            let m = choose|m: int| 0 <= m < a.len() && a[m] == x;
            if m == 0 {
                lemma_text_lt_irreflexive(b[0].key_of());
                assert(text_lt(b[0].key_of(), b[k + 1].key_of()));
            }
            assert(ta[m - 1] == x);
        }
        assert(ta.to_set() =~= tb.to_set());
        lemma_sorted_by_key_unique(ta, tb);
        assert(a =~= seq![a[0]] + ta);
        assert(b =~= seq![b[0]] + tb);
    }
}

/// Inserts a value with a new key into a key-sorted vector.
fn insert_by_key<T: Keyed>(v: &mut Vec<T>, x: T)
    requires
        sorted_by_key(old(v)@),
        forall|i: int| 0 <= i < old(v)@.len() ==> (#[trigger] old(v)@[i]).key_of() != x.key_of(),
    ensures
        sorted_by_key(final(v)@),
        final(v)@.to_set() == old(v)@.to_set().insert(x),
        final(v)@.len() == old(v)@.len() + 1,
{
    let ghost before = v@;
    let mut p: usize = 0;
    while p < v.len() && compare_text(v[p].key(), x.key()) == TextOrder::Less
        invariant
            0 <= p <= v@.len(),
            v@ == before,
            forall|k: int| 0 <= k < p ==> text_lt(#[trigger] before[k].key_of(), x.key_of()),
        decreases v@.len() - p,
    {
        p = p + 1;
    }
    proof {
        if p < v@.len() {
            lemma_text_lt_total(before[p as int].key_of(), x.key_of());
        }
    }
    v.insert(p, x);
    proof {
        let after = v@;
        assert(after =~= before.subrange(0, p as int).push(x) + before.subrange(p as int, before.len() as int));
        assert forall|i: int, j: int| 0 <= i < j < after.len() implies text_lt(
            #[trigger] after[i].key_of(),
            #[trigger] after[j].key_of(),
        ) by {
            if j < p {
                assert(after[i] == before[i] && after[j] == before[j]);
            } else if j == p {
                assert(after[i] == before[i]);
            } else if i < p {
                assert(after[i] == before[i] && after[j] == before[j - 1]);
                if j - 1 > p {
                    lemma_text_lt_transitive(x.key_of(), before[p as int].key_of(), before[j - 1].key_of());
                }
                lemma_text_lt_transitive(before[i].key_of(), x.key_of(), before[j - 1].key_of());
            } else if i == p {
                assert(after[j] == before[j - 1]);
                if j - 1 > p {
                    lemma_text_lt_transitive(x.key_of(), before[p as int].key_of(), before[j - 1].key_of());
                }
            } else {
                assert(after[i] == before[i - 1] && after[j] == before[j - 1]);
            }
        }
        assert forall|y: T| after.to_set().contains(y) <==> before.to_set().insert(x).contains(y) by {
            if after.contains(y) {
                let k = choose|k: int| 0 <= k < after.len() && after[k] == y;
                if k < p {
                    assert(before[k] == y);
                } else if k > p {
                    assert(before[k - 1] == y);
                }
            }
            if before.contains(y) {
                let k = choose|k: int| 0 <= k < before.len() && before[k] == y;
                if k < p {
                    assert(after[k] == y);
                } else {
                    assert(after[k + 1] == y);
                }
            }
            if y == x {
                assert(after[p as int] == y);
            }
        }
        assert(after.to_set() =~= before.to_set().insert(x));
    }
}

/// The index of the first value with a key.
fn find_by_key<T: Keyed>(v: &Vec<T>, key: &str) -> (found: Option<usize>)
    ensures
        match found {
            Some(i) => i < v@.len() && v@[i as int].key_of() == key@,
            None => forall|i: int| 0 <= i < v@.len() ==> (#[trigger] v@[i]).key_of() != key@,
        },
{
    let mut i: usize = 0;
    while i < v.len()
        invariant
            0 <= i <= v@.len(),
            forall|k: int| 0 <= k < i ==> (#[trigger] v@[k]).key_of() != key@,
        decreases v@.len() - i,
    {
        if text_equal(v[i].key(), key) {
            return Some(i);
        }
        i = i + 1;
    }
    None
}

/// Record `i` repeats the id of an earlier record.
pub open spec fn repeats_record_id(rs: Seq<EvidenceRecord>, i: int) -> bool {
    exists|k: int| 0 <= k < i && record_id_of(#[trigger] rs[k]) == record_id_of(rs[i])
}

/// Record `i` is rejected on intake: it is invalid, or its id was already seen.
pub open spec fn intake_fails_at(rs: Seq<EvidenceRecord>, i: int) -> bool {
    record_fault(rs[i]) is Some || repeats_record_id(rs, i)
}

/// Every record is valid and no id occurs twice.
pub open spec fn intake_ok(rs: Seq<EvidenceRecord>) -> bool {
    forall|i: int| 0 <= i < rs.len() ==> !intake_fails_at(rs, i)
}

/// Two records of the history carry this id.
pub open spec fn id_repeated(rs: Seq<EvidenceRecord>, id: Seq<char>) -> bool {
    exists|i: int, j: int|
        0 <= i < j < rs.len() && record_id_of(#[trigger] rs[i]) == id && record_id_of(#[trigger] rs[j]) == id
}

/// Some id is carried by two records.
pub open spec fn has_repeated_id(rs: Seq<EvidenceRecord>) -> bool {
    exists|id: Seq<char>| #[trigger] id_repeated(rs, id)
}

/// `id` is the least repeated id in byte order.
pub open spec fn least_repeated_id(rs: Seq<EvidenceRecord>, id: Seq<char>) -> bool {
    &&& id_repeated(rs, id)
    &&& forall|x: Seq<char>| #[trigger] id_repeated(rs, x) ==> x == id || text_lt(id, x)
}

/// Record `i` breaks the evidence schema.
pub open spec fn is_faulty(rs: Seq<EvidenceRecord>, i: int) -> bool {
    0 <= i < rs.len() && record_fault(rs[i]) is Some
}

/// Record `i` breaks the evidence schema and has the least id of those that do.
pub open spec fn least_faulty(rs: Seq<EvidenceRecord>, i: int) -> bool {
    &&& is_faulty(rs, i)
    &&& forall|k: int| #[trigger] is_faulty(rs, k) ==> record_id_of(rs[i]) == record_id_of(rs[k]) || text_lt(
        record_id_of(rs[i]),
        record_id_of(rs[k]),
    )
}

/// What intake reports of a history, whatever order its records come in: the
/// least repeated id; else the schema fault of the invalid record with the least
/// id.
pub open spec fn intake_refusal(rs: Seq<EvidenceRecord>, e: CoreError) -> bool {
    match e {
        CoreError::DuplicateRecord(id) => least_repeated_id(rs, id@),
        CoreError::Schema(s) => !has_repeated_id(rs) && exists|i: int|
            #[trigger] least_faulty(rs, i) && record_fault(rs[i]) == Some(s@),
        _ => false,
    }
}

/// A history is accepted on intake exactly when no id repeats and no record is
/// invalid.
proof fn lemma_intake_ok_iff(rs: Seq<EvidenceRecord>)
    ensures
        intake_ok(rs) <==> !has_repeated_id(rs) && forall|i: int| 0 <= i < rs.len() ==> !#[trigger] is_faulty(rs, i),
{
    if intake_ok(rs) {
        assert forall|i: int| 0 <= i < rs.len() implies !#[trigger] is_faulty(rs, i) by {
            assert(!intake_fails_at(rs, i));
        }
        if has_repeated_id(rs) {
            let id = choose|id: Seq<char>| #[trigger] id_repeated(rs, id);
            let (i, j) = choose|i: int, j: int|
                0 <= i < j < rs.len() && record_id_of(#[trigger] rs[i]) == id && record_id_of(#[trigger] rs[j]) == id;
            assert(repeats_record_id(rs, j));
            assert(intake_fails_at(rs, j));
        }
    }
    if !has_repeated_id(rs) && forall|i: int| 0 <= i < rs.len() ==> !#[trigger] is_faulty(rs, i) {
        assert forall|i: int| 0 <= i < rs.len() implies !intake_fails_at(rs, i) by {
            assert(!is_faulty(rs, i));
            if repeats_record_id(rs, i) {
                let k = choose|k: int| 0 <= k < i && record_id_of(#[trigger] rs[k]) == record_id_of(rs[i]);
                assert(record_id_of(rs[k]) == record_id_of(rs[i]));
                assert(id_repeated(rs, record_id_of(rs[i])));
                assert(has_repeated_id(rs));
            }
        }
    }
}

/// The observations of a history.
pub open spec fn observation_records(rs: Seq<EvidenceRecord>) -> Set<Observation> {
    Set::new(
        |o: Observation|
            exists|i: int| 0 <= i < rs.len() && #[trigger] rs[i] == EvidenceRecord::Observation(Box::new(o)),
    )
}

/// The corrections of a history.
pub open spec fn correction_records(rs: Seq<EvidenceRecord>) -> Set<Correction> {
    Set::new(
        |c: Correction| exists|i: int| 0 <= i < rs.len() && #[trigger] rs[i] == EvidenceRecord::Correction(c),
    )
}

/// The frontiers of a history.
pub open spec fn frontier_records(rs: Seq<EvidenceRecord>) -> Set<Frontier> {
    Set::new(
        |f: Frontier| exists|i: int| 0 <= i < rs.len() && #[trigger] rs[i] == EvidenceRecord::Frontier(f),
    )
}

/// The observations of a history in id order.
pub open spec fn sorted_observations(rs: Seq<EvidenceRecord>) -> Seq<Observation> {
    choose|s: Seq<Observation>| sorted_by_key(s) && s.to_set() == observation_records(rs)
}

/// The corrections of a history in id order.
pub open spec fn sorted_corrections(rs: Seq<EvidenceRecord>) -> Seq<Correction> {
    choose|s: Seq<Correction>| sorted_by_key(s) && s.to_set() == correction_records(rs)
}

/// The frontiers of a history in id order.
pub open spec fn sorted_frontiers(rs: Seq<EvidenceRecord>) -> Seq<Frontier> {
    choose|s: Seq<Frontier>| sorted_by_key(s) && s.to_set() == frontier_records(rs)
}

/// Deterministic replay failures.
#[derive(Clone, Debug, PartialEq)]
pub enum CoreError {
    Schema(SchemaError),
    Order(OrderingError),
    DuplicateRecord(String),
    MissingTarget { correction_id: String, target_id: String },
    ForwardTarget { correction_id: String, target_id: String },
    MissingReplacement { correction_id: String, replacement_id: String },
    ForwardReplacement { correction_id: String, replacement_id: String },
}

/// The observations among records `lo..hi` of a history.
pub open spec fn observations_in(rs: Seq<EvidenceRecord>, lo: int, hi: int) -> Set<Observation> {
    Set::new(
        |o: Observation|
            exists|i: int| lo <= i < hi && #[trigger] rs[i] == EvidenceRecord::Observation(Box::new(o)),
    )
}

/// The corrections among records `lo..hi` of a history.
pub open spec fn corrections_in(rs: Seq<EvidenceRecord>, lo: int, hi: int) -> Set<Correction> {
    Set::new(|c: Correction| exists|i: int| lo <= i < hi && #[trigger] rs[i] == EvidenceRecord::Correction(c))
}

/// The frontiers among records `lo..hi` of a history.
pub open spec fn frontiers_in(rs: Seq<EvidenceRecord>, lo: int, hi: int) -> Set<Frontier> {
    Set::new(|f: Frontier| exists|i: int| lo <= i < hi && #[trigger] rs[i] == EvidenceRecord::Frontier(f))
}

/// The records of an accepted history, split by kind and sorted by id.
pub struct Intake {
    pub observations: Vec<Observation>,
    pub corrections: Vec<Correction>,
    pub frontiers: Vec<Frontier>,
}

/// Checks every record, rejecting the least repeated id, else the invalid record
/// with the least id, and splits an accepted history by kind, each kind sorted by
/// id.
fn intake(records: Vec<EvidenceRecord>) -> (result: Result<Intake, CoreError>)
    ensures
        result is Ok <==> intake_ok(records@),
        match result {
            Ok(split) => {
                &&& split.observations@ == sorted_observations(records@)
                &&& split.observations@.to_set() == observation_records(records@)
                &&& split.corrections@.to_set() == correction_records(records@)
                &&& split.frontiers@.to_set() == frontier_records(records@)
                &&& split.corrections@ == sorted_corrections(records@)
                &&& split.frontiers@ == sorted_frontiers(records@)
                &&& sorted_by_key(split.observations@)
                &&& sorted_by_key(split.corrections@)
                &&& sorted_by_key(split.frontiers@)
            },
            Err(e) => intake_refusal(records@, e),
        },
{
    let ghost rs = records@;
    let n = records.len();
    proof {
        lemma_intake_ok_iff(rs);
    }
    let mut seen = TextSet::new();
    let mut repeated = TextSet::new();
    let mut i: usize = 0;
    while i < n
        invariant
            0 <= i <= n,
            n == rs.len(),
            records@ == rs,
            forall|x: Seq<char>|
                #[trigger] seen@.to_set().contains(x) <==> exists|k: int| 0 <= k < i && record_id_of(#[trigger] rs[k]) == x,
            forall|x: Seq<char>|
                #[trigger] repeated@.to_set().contains(x) <==> exists|a: int, b: int|
                    0 <= a < b < i && record_id_of(#[trigger] rs[a]) == x && record_id_of(#[trigger] rs[b]) == x,
        decreases n - i,
    {
        let id = records[i].record_id();
        let ghost x = id@;
        if seen.contains(id) {
            let ghost before = repeated@.to_set();
            assert(seen@.to_set().contains(x));
            repeated.insert(id.to_owned());
            proof {
                let k = choose|k: int| 0 <= k < i && record_id_of(#[trigger] rs[k]) == x;
                assert forall|y: Seq<char>| #[trigger] repeated@.to_set().contains(y) <==> exists|a: int, b: int|
                    0 <= a < b < i + 1 && record_id_of(#[trigger] rs[a]) == y && record_id_of(#[trigger] rs[b]) == y by {
                    if y == x {
                        assert(record_id_of(rs[k]) == y && record_id_of(rs[i as int]) == y);
                        assert(repeated@.to_set().contains(y));
                    }
                    if exists|a: int, b: int|
                        0 <= a < b < i + 1 && record_id_of(#[trigger] rs[a]) == y && record_id_of(#[trigger] rs[b]) == y {
                        let (a, b) = choose|a: int, b: int|
                            0 <= a < b < i + 1 && record_id_of(#[trigger] rs[a]) == y && record_id_of(#[trigger] rs[b]) == y;
                        if b < i {
                            assert(before.contains(y));
                        }
                    }
                }
            }
        } else {
            assert(!seen@.to_set().contains(x));
            seen.insert(id.to_owned());
            proof {
                assert forall|y: Seq<char>| #[trigger] repeated@.to_set().contains(y) <==> exists|a: int, b: int|
                    0 <= a < b < i + 1 && record_id_of(#[trigger] rs[a]) == y && record_id_of(#[trigger] rs[b]) == y by {
                    if exists|a: int, b: int|
                        0 <= a < b < i + 1 && record_id_of(#[trigger] rs[a]) == y && record_id_of(#[trigger] rs[b]) == y {
                        let (a, b) = choose|a: int, b: int|
                            0 <= a < b < i + 1 && record_id_of(#[trigger] rs[a]) == y && record_id_of(#[trigger] rs[b]) == y;
                        if b == i {
                            assert(record_id_of(rs[a]) == x);
                            assert(false);
                        }
                    }
                }
            }
        }
        proof {
            assert forall|y: Seq<char>| #[trigger] seen@.to_set().contains(y) <==> exists|k: int|
                0 <= k < i + 1 && record_id_of(#[trigger] rs[k]) == y by {
                if exists|k: int| 0 <= k < i + 1 && record_id_of(#[trigger] rs[k]) == y {
                    let k = choose|k: int| 0 <= k < i + 1 && record_id_of(#[trigger] rs[k]) == y;
                    if k < i {
                    }
                }
            }
        }
        i = i + 1;
    }
    proof {
        assert forall|y: Seq<char>| #[trigger] repeated@.to_set().contains(y) == id_repeated(rs, y) by {}
    }
    match repeated.first() {
        Some(least) => {
            let id = least.clone();
            proof {
                assert(repeated@.to_set().contains(least@));
                assert(id_repeated(rs, least@));
                assert forall|y: Seq<char>| #[trigger] id_repeated(rs, y) implies y == least@ || text_lt(least@, y) by {
                    assert(repeated@.to_set().contains(y));
                }
                assert(least_repeated_id(rs, id@));
            }
            return Err(CoreError::DuplicateRecord(id));
        },
        None => {},
    }
    proof {
        assert(!has_repeated_id(rs)) by {
            if has_repeated_id(rs) {
                let y = choose|y: Seq<char>| #[trigger] id_repeated(rs, y);
                assert(repeated@.to_set().contains(y));
            }
        }
    }
    let mut best: Option<(usize, SchemaError)> = None;
    let mut j: usize = 0;
    while j < n
        invariant
            0 <= j <= n,
            n == rs.len(),
            records@ == rs,
            !has_repeated_id(rs),
            match best {
                None => forall|k: int| 0 <= k < j ==> !#[trigger] is_faulty(rs, k),
                Some((b, e)) => {
                    &&& b < j
                    &&& record_fault(rs[b as int]) == Some(e@)
                    &&& forall|k: int|
                        0 <= k < j && #[trigger] is_faulty(rs, k) ==> record_id_of(rs[b as int]) == record_id_of(rs[k])
                            || text_lt(record_id_of(rs[b as int]), record_id_of(rs[k]))
                },
            },
        decreases n - j,
    {
        match records[j].validate() {
            Err(e) => {
                let better = match &best {
                    None => true,
                    Some((b, _)) => compare_text(records[j].record_id(), records[*b].record_id()) == TextOrder::Less,
                };
                if better {
                    proof {
                        if let Some((b, _)) = best {
                            assert forall|k: int| 0 <= k < j + 1 && #[trigger] is_faulty(rs, k) implies record_id_of(
                                rs[j as int],
                            ) == record_id_of(rs[k]) || text_lt(record_id_of(rs[j as int]), record_id_of(rs[k])) by {
                                if k < j && record_id_of(rs[b as int]) != record_id_of(rs[k]) {
                                    lemma_text_lt_transitive(
                                        record_id_of(rs[j as int]),
                                        record_id_of(rs[b as int]),
                                        record_id_of(rs[k]),
                                    );
                                }
                            }
                        }
                    }
                    best = Some((j, e));
                } else {
                    proof {
                        if let Some((b, _)) = best {
                            let x = record_id_of(rs[j as int]);
                            let y = record_id_of(rs[b as int]);
                            if x != y {
                                lemma_text_lt_total(x, y);
                            }
                            if x == y && b != j {
                                assert(id_repeated(rs, x));
                            }
                        }
                    }
                }
            },
            Ok(()) => {},
        }
        j = j + 1;
    }
    match best {
        Some((b, e)) => {
            proof {
                assert(least_faulty(rs, b as int));
            }
            return Err(CoreError::Schema(e));
        },
        None => {},
    }
    let mut records = records;
    let mut observations: Vec<Observation> = Vec::new();
    let mut corrections: Vec<Correction> = Vec::new();
    let mut frontiers: Vec<Frontier> = Vec::new();
    proof {
        assert(observations@.to_set() =~= observations_in(rs, n as int, n as int));
        assert(corrections@.to_set() =~= corrections_in(rs, n as int, n as int));
        assert(frontiers@.to_set() =~= frontiers_in(rs, n as int, n as int));
        assert(records@ =~= rs.subrange(0, n as int));
    }
    while records.len() > 0
        invariant
            n == rs.len(),
            intake_ok(rs),
            records@.len() <= n,
            records@ == rs.subrange(0, records@.len() as int),
            sorted_by_key(observations@),
            sorted_by_key(corrections@),
            sorted_by_key(frontiers@),
            observations@.to_set() == observations_in(rs, records@.len() as int, n as int),
            corrections@.to_set() == corrections_in(rs, records@.len() as int, n as int),
            frontiers@.to_set() == frontiers_in(rs, records@.len() as int, n as int),
        decreases records@.len(),
    {
        let ghost lo = records@.len() - 1;
        let record = records.pop().unwrap();
        proof {
            assert(record == rs[lo]);
            assert(records@ =~= rs.subrange(0, lo));
        }
        match record {
            EvidenceRecord::Observation(boxed) => {
                let o = *boxed;
                proof {
                    assert forall|k: int| 0 <= k < observations@.len() implies (#[trigger] observations@[k]).key_of() != o.key_of() by {
                        assert(observations@.to_set().contains(observations@[k]));
                        let j = choose|j: int| lo + 1 <= j < n && #[trigger] rs[j] == EvidenceRecord::Observation(Box::new(observations@[k]));
                        assert(!intake_fails_at(rs, j));
                        assert(!repeats_record_id(rs, j));
                        assert(record_id_of(rs[lo]) != record_id_of(rs[j]));
                    }
                }
                insert_by_key(&mut observations, o);
                proof {
                    assert forall|x: Observation| observations@.to_set().contains(x) <==> observations_in(rs, lo, n as int).contains(x) by {
                        if observations_in(rs, lo + 1, n as int).contains(x) {
                            let j = choose|j: int| lo + 1 <= j < n && #[trigger] rs[j] == EvidenceRecord::Observation(Box::new(x));
                            assert(lo <= j < n);
                        }
                        if observations_in(rs, lo, n as int).contains(x) {
                            let j = choose|j: int| lo <= j < n && #[trigger] rs[j] == EvidenceRecord::Observation(Box::new(x));
                            if j > lo {
                                assert(observations_in(rs, lo + 1, n as int).contains(x));
                            }
                        }
                    }
                    assert(observations@.to_set() =~= observations_in(rs, lo, n as int));
                    assert(corrections@.to_set() =~= corrections_in(rs, lo, n as int)) by {
                        assert forall|x: Correction| corrections_in(rs, lo, n as int).contains(x) implies corrections_in(rs, lo + 1, n as int).contains(x) by {
                            let j = choose|j: int| lo <= j < n && #[trigger] rs[j] == EvidenceRecord::Correction(x);
                            if j == lo {
                                assert(false);
                            }
                        }
                    }
                    assert(frontiers@.to_set() =~= frontiers_in(rs, lo, n as int)) by {
                        assert forall|x: Frontier| frontiers_in(rs, lo, n as int).contains(x) implies frontiers_in(rs, lo + 1, n as int).contains(x) by {
                            let j = choose|j: int| lo <= j < n && #[trigger] rs[j] == EvidenceRecord::Frontier(x);
                            if j == lo {
                                assert(false);
                            }
                        }
                    }
                }
            },
            EvidenceRecord::Correction(c) => {
                proof {
                    assert forall|k: int| 0 <= k < corrections@.len() implies (#[trigger] corrections@[k]).key_of() != c.key_of() by {
                        assert(corrections@.to_set().contains(corrections@[k]));
                        let j = choose|j: int| lo + 1 <= j < n && #[trigger] rs[j] == EvidenceRecord::Correction(corrections@[k]);
                        assert(!intake_fails_at(rs, j));
                        assert(!repeats_record_id(rs, j));
                        assert(record_id_of(rs[lo]) != record_id_of(rs[j]));
                    }
                }
                insert_by_key(&mut corrections, c);
                proof {
                    assert forall|x: Correction| corrections@.to_set().contains(x) <==> corrections_in(rs, lo, n as int).contains(x) by {
                        if corrections_in(rs, lo + 1, n as int).contains(x) {
                            let j = choose|j: int| lo + 1 <= j < n && #[trigger] rs[j] == EvidenceRecord::Correction(x);
                            assert(lo <= j < n);
                        }
                        if corrections_in(rs, lo, n as int).contains(x) {
                            let j = choose|j: int| lo <= j < n && #[trigger] rs[j] == EvidenceRecord::Correction(x);
                            if j > lo {
                                assert(corrections_in(rs, lo + 1, n as int).contains(x));
                            }
                        }
                    }
                    assert(corrections@.to_set() =~= corrections_in(rs, lo, n as int));
                    assert(observations@.to_set() =~= observations_in(rs, lo, n as int)) by {
                        assert forall|x: Observation| observations_in(rs, lo, n as int).contains(x) implies observations_in(rs, lo + 1, n as int).contains(x) by {
                            let j = choose|j: int| lo <= j < n && #[trigger] rs[j] == EvidenceRecord::Observation(Box::new(x));
                            if j == lo {
                                assert(false);
                            }
                        }
                    }
                    assert(frontiers@.to_set() =~= frontiers_in(rs, lo, n as int)) by {
                        assert forall|x: Frontier| frontiers_in(rs, lo, n as int).contains(x) implies frontiers_in(rs, lo + 1, n as int).contains(x) by {
                            let j = choose|j: int| lo <= j < n && #[trigger] rs[j] == EvidenceRecord::Frontier(x);
                            if j == lo {
                                assert(false);
                            }
                        }
                    }
                }
            },
            EvidenceRecord::Frontier(f) => {
                proof {
                    assert forall|k: int| 0 <= k < frontiers@.len() implies (#[trigger] frontiers@[k]).key_of() != f.key_of() by {
                        assert(frontiers@.to_set().contains(frontiers@[k]));
                        let j = choose|j: int| lo + 1 <= j < n && #[trigger] rs[j] == EvidenceRecord::Frontier(frontiers@[k]);
                        assert(!intake_fails_at(rs, j));
                        assert(!repeats_record_id(rs, j));
                        assert(record_id_of(rs[lo]) != record_id_of(rs[j]));
                    }
                }
                insert_by_key(&mut frontiers, f);
                proof {
                    assert forall|x: Frontier| frontiers@.to_set().contains(x) <==> frontiers_in(rs, lo, n as int).contains(x) by {
                        if frontiers_in(rs, lo + 1, n as int).contains(x) {
                            let j = choose|j: int| lo + 1 <= j < n && #[trigger] rs[j] == EvidenceRecord::Frontier(x);
                            assert(lo <= j < n);
                        }
                        if frontiers_in(rs, lo, n as int).contains(x) {
                            let j = choose|j: int| lo <= j < n && #[trigger] rs[j] == EvidenceRecord::Frontier(x);
                            if j > lo {
                                assert(frontiers_in(rs, lo + 1, n as int).contains(x));
                            }
                        }
                    }
                    assert(frontiers@.to_set() =~= frontiers_in(rs, lo, n as int));
                    assert(observations@.to_set() =~= observations_in(rs, lo, n as int)) by {
                        assert forall|x: Observation| observations_in(rs, lo, n as int).contains(x) implies observations_in(rs, lo + 1, n as int).contains(x) by {
                            let j = choose|j: int| lo <= j < n && #[trigger] rs[j] == EvidenceRecord::Observation(Box::new(x));
                            if j == lo {
                                assert(false);
                            }
                        }
                    }
                    assert(corrections@.to_set() =~= corrections_in(rs, lo, n as int)) by {
                        assert forall|x: Correction| corrections_in(rs, lo, n as int).contains(x) implies corrections_in(rs, lo + 1, n as int).contains(x) by {
                            let j = choose|j: int| lo <= j < n && #[trigger] rs[j] == EvidenceRecord::Correction(x);
                            if j == lo {
                                assert(false);
                            }
                        }
                    }
                }
            },
        }
    }
    proof {
        assert(observations_in(rs, 0, n as int) =~= observation_records(rs));
        assert(corrections_in(rs, 0, n as int) =~= correction_records(rs));
        assert(frontiers_in(rs, 0, n as int) =~= frontier_records(rs));
        lemma_sorted_by_key_unique(observations@, sorted_observations(rs));
        lemma_sorted_by_key_unique(corrections@, sorted_corrections(rs));
        lemma_sorted_by_key_unique(frontiers@, sorted_frontiers(rs));
    }
    Ok(Intake { observations, corrections, frontiers })
}

/// The ordering evidence of a history: observations in id order, then corrections
/// in id order.
pub open spec fn history_points(obs: Seq<Observation>, corr: Seq<Correction>) -> Seq<PointView> {
    obs.map_values(|o: Observation| observation_point(o)) + corr.map_values(
        |c: Correction| correction_point(c),
    )
}

/// An observation with this id is part of the history.
pub open spec fn is_observed(obs: Seq<Observation>, id: Seq<char>) -> bool {
    exists|i: int| 0 <= i < obs.len() && (#[trigger] obs[i]).observation_id@ == id
}

/// A reference of a correction that does not resolve or points forward.
pub ghost enum CheckFault {
    MissingTarget { correction_id: Seq<char>, target_id: Seq<char> },
    ForwardTarget { correction_id: Seq<char>, target_id: Seq<char> },
    MissingReplacement { correction_id: Seq<char>, replacement_id: Seq<char> },
    ForwardReplacement { correction_id: Seq<char>, replacement_id: Seq<char> },
}

/// The reference check a replay error reports, if it is one.
pub open spec fn check_error_view(error: CoreError) -> Option<CheckFault> {
    match error {
        CoreError::MissingTarget { correction_id, target_id } => Some(
            CheckFault::MissingTarget { correction_id: correction_id@, target_id: target_id@ },
        ),
        CoreError::ForwardTarget { correction_id, target_id } => Some(
            CheckFault::ForwardTarget { correction_id: correction_id@, target_id: target_id@ },
        ),
        CoreError::MissingReplacement { correction_id, replacement_id } => Some(
            CheckFault::MissingReplacement {
                correction_id: correction_id@,
                replacement_id: replacement_id@,
            },
        ),
        CoreError::ForwardReplacement { correction_id, replacement_id } => Some(
            CheckFault::ForwardReplacement {
                correction_id: correction_id@,
                replacement_id: replacement_id@,
            },
        ),
        _ => None,
    }
}

/// A correction target must be an observation that does not follow the correction.
pub open spec fn target_fault(
    obs: Seq<Observation>,
    pts: Seq<PointView>,
    c: Correction,
    t: Seq<char>,
) -> Option<CheckFault> {
    if !is_observed(obs, t) {
        Some(CheckFault::MissingTarget { correction_id: c.correction_id@, target_id: t })
    } else if relation_of(pts, c.correction_id@, t) == OrderRelation::Before {
        Some(CheckFault::ForwardTarget { correction_id: c.correction_id@, target_id: t })
    } else {
        None
    }
}

/// A named replacement must be an observation that does not follow the correction.
pub open spec fn replacement_fault(
    obs: Seq<Observation>,
    pts: Seq<PointView>,
    c: Correction,
    r: Seq<char>,
) -> Option<CheckFault> {
    if !is_observed(obs, r) {
        Some(CheckFault::MissingReplacement { correction_id: c.correction_id@, replacement_id: r })
    } else if relation_of(pts, c.correction_id@, r) == OrderRelation::Before {
        Some(CheckFault::ForwardReplacement { correction_id: c.correction_id@, replacement_id: r })
    } else {
        None
    }
}

/// The check of each reference of a correction, in order.
pub open spec fn reference_faults(
    obs: Seq<Observation>,
    pts: Seq<PointView>,
    c: Correction,
    refs: Seq<Seq<char>>,
    replacements: bool,
) -> Seq<Option<CheckFault>> {
    refs.map_values(
        |t: Seq<char>|
            if replacements {
                replacement_fault(obs, pts, c, t)
            } else {
                target_fault(obs, pts, c, t)
            },
    )
}

/// The operation names replacement observations.
pub open spec fn names_replacements(c: Correction) -> bool {
    c.operation == CorrectionOperation::Replacement || c.operation
        == CorrectionOperation::Deduplication
}

/// The first failed reference check of one correction: its targets in order, then
/// its replacements in order.
pub open spec fn correction_check(obs: Seq<Observation>, pts: Seq<PointView>, c: Correction) -> Option<
    CheckFault,
> {
    let targets = first_some(reference_faults(obs, pts, c, c.targets@, false));
    if targets is Some {
        targets
    } else if names_replacements(c) {
        first_some(reference_faults(obs, pts, c, c.replacement_ids->0@, true))
    } else {
        None
    }
}

/// The first failed reference check of a history, corrections in id order.
pub open spec fn history_check(obs: Seq<Observation>, corr: Seq<Correction>, pts: Seq<PointView>) -> Option<
    CheckFault,
> {
    first_some(corr.map_values(|c: Correction| correction_check(obs, pts, c)))
}

proof fn lemma_point_of_correction(obs: Seq<Observation>, corr: Seq<Correction>, k: int)
    requires
        0 <= k < corr.len(),
    ensures
        is_known(history_points(obs, corr), corr[k].correction_id@),
{
    let pts = history_points(obs, corr);
    assert(pts[obs.len() + k] == correction_point(corr[k]));
}

proof fn lemma_point_of_observation(obs: Seq<Observation>, corr: Seq<Correction>, id: Seq<char>)
    requires
        is_observed(obs, id),
    ensures
        is_known(history_points(obs, corr), id),
{
    let pts = history_points(obs, corr);
    let i = choose|i: int| 0 <= i < obs.len() && (#[trigger] obs[i]).observation_id@ == id;
    assert(pts[i] == observation_point(obs[i]));
}

/// Checks the references of one correction against the order.
fn check_references(
    obs: &Vec<Observation>,
    corr: &Vec<Correction>,
    k: usize,
    refs: &TextSet,
    replacements: bool,
    order: &PartialOrder,
) -> (result: Result<(), CoreError>)
    requires
        sorted_by_key(obs@),
        k < corr@.len(),
        order@ == history_points(obs@, corr@),
    ensures
        match result {
            Ok(()) => first_some(reference_faults(obs@, order@, corr@[k as int], refs@, replacements)) is None,
            Err(e) => first_some(reference_faults(obs@, order@, corr@[k as int], refs@, replacements))
                == check_error_view(e) && check_error_view(e) is Some,
        },
{
    let c = &corr[k];
    let ghost faults = reference_faults(obs@, order@, corr@[k as int], refs@, replacements);
    let items = refs.items();
    let mut i: usize = 0;
    proof {
        lemma_point_of_correction(obs@, corr@, k as int);
    }
    while i < items.len()
        invariant
            0 <= i <= items@.len(),
            texts(items@) == refs@,
            faults.len() == refs@.len(),
            sorted_by_key(obs@),
            k < corr@.len(),
            *c == corr@[k as int],
            order@ == history_points(obs@, corr@),
            is_known(order@, c.correction_id@),
            faults == reference_faults(obs@, order@, corr@[k as int], refs@, replacements),
            forall|m: int| 0 <= m < i ==> (#[trigger] faults[m]) is None,
        decreases items@.len() - i,
    {
        let t = &items[i];
        assert(refs@[i as int] == t@);
        assert(faults[i as int] == if replacements {
            replacement_fault(obs@, order@, corr@[k as int], t@)
        } else {
            target_fault(obs@, order@, corr@[k as int], t@)
        });
        match find_by_key(obs, t.as_str()) {
            None => {
                proof {
                    lemma_first_some_skip(faults, i as int);
                    if is_observed(obs@, t@) {
                        let j = choose|j: int| 0 <= j < obs@.len() && (#[trigger] obs@[j]).observation_id@ == t@;
                        assert(obs@[j].key_of() == t@);
                    }
                }
                if replacements {
                    return Err(
                        CoreError::MissingReplacement {
                            correction_id: c.correction_id.clone(),
                            replacement_id: t.clone(),
                        },
                    );
                } else {
                    return Err(
                        CoreError::MissingTarget {
                            correction_id: c.correction_id.clone(),
                            target_id: t.clone(),
                        },
                    );
                }
            },
            Some(j) => {
                proof {
                    assert(obs@[j as int].observation_id@ == t@);
                    assert(is_observed(obs@, t@));
                    lemma_point_of_observation(obs@, corr@, t@);
                }
                match order.relation(c.correction_id.as_str(), t.as_str()) {
                    Ok(relation) => {
                        if relation == OrderRelation::Before {
                            proof {
                                lemma_first_some_skip(faults, i as int);
                            }
                            if replacements {
                                return Err(
                                    CoreError::ForwardReplacement {
                                        correction_id: c.correction_id.clone(),
                                        replacement_id: t.clone(),
                                    },
                                );
                            } else {
                                return Err(
                                    CoreError::ForwardTarget {
                                        correction_id: c.correction_id.clone(),
                                        target_id: t.clone(),
                                    },
                                );
                            }
                        }
                    },
                    Err(e) => {
                        proof {
                            assert(false);
                        }
                        return Err(CoreError::Order(e));
                    },
                }
            },
        }
        i = i + 1;
    }
    proof {
        lemma_first_some_skip(faults, i as int);
        assert(faults.skip(i as int).len() == 0);
    }
    Ok(())
}

/// Checks every reference of every correction, corrections in id order.
#[verifier::rlimit(40)]
fn check_history(obs: &Vec<Observation>, corr: &Vec<Correction>, order: &PartialOrder) -> (result:
    Result<(), CoreError>)
    requires
        sorted_by_key(obs@),
        forall|k: int| 0 <= k < corr@.len() ==> crate::schema::correction_fault(#[trigger] corr@[k]) is None,
        order@ == history_points(obs@, corr@),
    ensures
        match result {
            Ok(()) => history_check(obs@, corr@, order@) is None,
            Err(e) => history_check(obs@, corr@, order@) == check_error_view(e) && check_error_view(e) is Some,
        },
{
    let ghost faults = corr@.map_values(|c: Correction| correction_check(obs@, order@, c));
    let mut k: usize = 0;
    while k < corr.len()
        invariant
            0 <= k <= corr@.len(),
            sorted_by_key(obs@),
            forall|m: int| 0 <= m < corr@.len() ==> crate::schema::correction_fault(#[trigger] corr@[m]) is None,
            order@ == history_points(obs@, corr@),
            faults == corr@.map_values(|c: Correction| correction_check(obs@, order@, c)),
            forall|m: int| 0 <= m < k ==> (#[trigger] faults[m]) is None,
        decreases corr@.len() - k,
    {
        let c = &corr[k];
        assert(faults[k as int] == correction_check(obs@, order@, corr@[k as int]));
        proof {
            crate::schema::lemma_valid_correction(corr@[k as int]);
        }
        let r = check_references(obs, corr, k, &c.targets, false, order);
        if r.is_err() {
            proof {
                lemma_first_some_skip(faults, k as int);
            }
            return r;
        }
        match c.operation {
            CorrectionOperation::Replacement | CorrectionOperation::Deduplication => {
                match &c.replacement_ids {
                    Some(ids) => {
                        let r = check_references(obs, corr, k, ids, true, order);
                        if r.is_err() {
                            proof {
                                lemma_first_some_skip(faults, k as int);
                            }
                            return r;
                        }
                    },
                    None => {},
                }
            },
            _ => {},
        }
        k = k + 1;
    }
    proof {
        lemma_first_some_skip(faults, k as int);
        assert(faults.skip(k as int).len() == 0);
    }
    Ok(())
}

/// The correction performs `op` and names the observation among its targets.
pub open spec fn applies(c: Correction, op: CorrectionOperation, o: Seq<char>) -> bool {
    c.operation == op && c.targets@.contains(o)
}

/// Some of the first `k` corrections retracts the observation.
#[verifier::opaque]
pub open spec fn retracted_upto(corr: Seq<Correction>, o: Seq<char>, k: int) -> bool {
    exists|i: int| 0 <= i < k && #[trigger] applies(corr[i], CorrectionOperation::Retraction, o)
}

/// Some of the first `k` corrections replaces the observation.
#[verifier::opaque]
pub open spec fn replaced_upto(corr: Seq<Correction>, o: Seq<char>, k: int) -> bool {
    exists|i: int| 0 <= i < k && #[trigger] applies(corr[i], CorrectionOperation::Replacement, o)
}

/// Some of the first `k` corrections deduplicates the observation.
#[verifier::opaque]
pub open spec fn deduplicated_upto(corr: Seq<Correction>, o: Seq<char>, k: int) -> bool {
    exists|i: int| 0 <= i < k && #[trigger] applies(corr[i], CorrectionOperation::Deduplication, o)
}

/// The replacement ids a correction names, as a set.
pub open spec fn replacement_set(c: Correction) -> Set<Seq<char>> {
    c.replacement_ids->0@.to_set()
}

/// The canonical record a deduplication names.
pub open spec fn canonical_of(c: Correction) -> Seq<char> {
    c.replacement_ids->0@[0]
}

/// Every replacement id named by the first `k` replacements of the observation.
#[verifier::opaque]
pub open spec fn replacements_upto(corr: Seq<Correction>, o: Seq<char>, k: int) -> Set<Seq<char>> {
    Set::new(
        |x: Seq<char>|
            exists|i: int|
                0 <= i < k && #[trigger] applies(corr[i], CorrectionOperation::Replacement, o)
                    && replacement_set(corr[i]).contains(x),
    )
}

/// Two of the first `k` replacements of the observation name different sets.
#[verifier::opaque]
pub open spec fn replacement_conflict_upto(corr: Seq<Correction>, o: Seq<char>, k: int) -> bool {
    exists|i: int, j: int|
        0 <= i < k && 0 <= j < k && #[trigger] applies(corr[i], CorrectionOperation::Replacement, o)
            && #[trigger] applies(corr[j], CorrectionOperation::Replacement, o)
            && replacement_set(corr[i]) != replacement_set(corr[j])
}

/// The canonical records named by the first `k` deduplications of the observation.
#[verifier::opaque]
pub open spec fn duplicates_upto(corr: Seq<Correction>, o: Seq<char>, k: int) -> Set<Seq<char>> {
    Set::new(
        |x: Seq<char>|
            exists|i: int|
                0 <= i < k && #[trigger] applies(corr[i], CorrectionOperation::Deduplication, o)
                    && canonical_of(corr[i]) == x,
    )
}

/// Two of the first `k` deduplications of the observation name different canonicals.
#[verifier::opaque]
pub open spec fn duplicate_conflict_upto(corr: Seq<Correction>, o: Seq<char>, k: int) -> bool {
    exists|i: int, j: int|
        0 <= i < k && 0 <= j < k && #[trigger] applies(corr[i], CorrectionOperation::Deduplication, o)
            && #[trigger] applies(corr[j], CorrectionOperation::Deduplication, o)
            && canonical_of(corr[i]) != canonical_of(corr[j])
}

/// The qualification texts of the first `k` qualifications of the observation.
#[verifier::opaque]
pub open spec fn qualifications_upto(corr: Seq<Correction>, o: Seq<char>, k: int) -> Set<Seq<char>> {
    Set::new(
        |q: Seq<char>|
            exists|i: int|
                0 <= i < k && #[trigger] applies(corr[i], CorrectionOperation::Qualification, o)
                    && corr[i].qualification->0@ == q,
    )
}

/// The ids of the first `k` corrections that target the observation.
#[verifier::opaque]
pub open spec fn correction_ids_upto(corr: Seq<Correction>, o: Seq<char>, k: int) -> Set<Seq<char>> {
    Set::new(
        |x: Seq<char>|
            exists|i: int| 0 <= i < k && #[trigger] corr[i].targets@.contains(o) && corr[i].correction_id@ == x,
    )
}

/// How the flags grow by one correction.
proof fn lemma_flags_step(corr: Seq<Correction>, o: Seq<char>, k: int)
    requires
        0 <= k < corr.len(),
    ensures
        retracted_upto(corr, o, k + 1) == (retracted_upto(corr, o, k) || applies(
            corr[k],
            CorrectionOperation::Retraction,
            o,
        )),
        replaced_upto(corr, o, k + 1) == (replaced_upto(corr, o, k) || applies(
            corr[k],
            CorrectionOperation::Replacement,
            o,
        )),
        deduplicated_upto(corr, o, k + 1) == (deduplicated_upto(corr, o, k) || applies(
            corr[k],
            CorrectionOperation::Deduplication,
            o,
        )),
{
    reveal(retracted_upto);
    reveal(replaced_upto);
    reveal(deduplicated_upto);
    reveal(replacements_upto);
    reveal(replacement_conflict_upto);
    reveal(duplicates_upto);
    reveal(duplicate_conflict_upto);
    reveal(qualifications_upto);
    reveal(correction_ids_upto);
    reveal(replacement_anchor);
    reveal(duplicate_anchor);
    if retracted_upto(corr, o, k + 1) {
        let i = choose|i: int| 0 <= i < k + 1 && #[trigger] applies(corr[i], CorrectionOperation::Retraction, o);
        if i < k {
            assert(retracted_upto(corr, o, k));
        }
    }
    if replaced_upto(corr, o, k + 1) {
        let i = choose|i: int| 0 <= i < k + 1 && #[trigger] applies(corr[i], CorrectionOperation::Replacement, o);
        if i < k {
            assert(replaced_upto(corr, o, k));
        }
    }
    if deduplicated_upto(corr, o, k + 1) {
        let i = choose|i: int| 0 <= i < k + 1 && #[trigger] applies(corr[i], CorrectionOperation::Deduplication, o);
        if i < k {
            assert(deduplicated_upto(corr, o, k));
        }
    }
}

/// How the collected replacement ids grow by one correction.
proof fn lemma_replacements_step(corr: Seq<Correction>, o: Seq<char>, k: int)
    requires
        0 <= k < corr.len(),
    ensures
        replacements_upto(corr, o, k + 1) == if applies(corr[k], CorrectionOperation::Replacement, o) {
            replacements_upto(corr, o, k).union(replacement_set(corr[k]))
        } else {
            replacements_upto(corr, o, k)
        },
{
    reveal(retracted_upto);
    reveal(replaced_upto);
    reveal(deduplicated_upto);
    reveal(replacements_upto);
    reveal(replacement_conflict_upto);
    reveal(duplicates_upto);
    reveal(duplicate_conflict_upto);
    reveal(qualifications_upto);
    reveal(correction_ids_upto);
    reveal(replacement_anchor);
    reveal(duplicate_anchor);
    let next = if applies(corr[k], CorrectionOperation::Replacement, o) {
        replacements_upto(corr, o, k).union(replacement_set(corr[k]))
    } else {
        replacements_upto(corr, o, k)
    };
    assert forall|x: Seq<char>| replacements_upto(corr, o, k + 1).contains(x) <==> next.contains(x) by {
        if replacements_upto(corr, o, k + 1).contains(x) {
            let i = choose|i: int|
                0 <= i < k + 1 && #[trigger] applies(corr[i], CorrectionOperation::Replacement, o)
                    && replacement_set(corr[i]).contains(x);
            if i < k {
                assert(replacements_upto(corr, o, k).contains(x));
            }
        }
        if replacements_upto(corr, o, k).contains(x) {
            let i = choose|i: int|
                0 <= i < k && #[trigger] applies(corr[i], CorrectionOperation::Replacement, o)
                    && replacement_set(corr[i]).contains(x);
            assert(0 <= i < k + 1);
        }
    }
    assert(replacements_upto(corr, o, k + 1) =~= next);
}

/// How the collected canonical records grow by one correction.
proof fn lemma_duplicates_step(corr: Seq<Correction>, o: Seq<char>, k: int)
    requires
        0 <= k < corr.len(),
    ensures
        duplicates_upto(corr, o, k + 1) == if applies(corr[k], CorrectionOperation::Deduplication, o) {
            duplicates_upto(corr, o, k).insert(canonical_of(corr[k]))
        } else {
            duplicates_upto(corr, o, k)
        },
{
    reveal(retracted_upto);
    reveal(replaced_upto);
    reveal(deduplicated_upto);
    reveal(replacements_upto);
    reveal(replacement_conflict_upto);
    reveal(duplicates_upto);
    reveal(duplicate_conflict_upto);
    reveal(qualifications_upto);
    reveal(correction_ids_upto);
    reveal(replacement_anchor);
    reveal(duplicate_anchor);
    let next = if applies(corr[k], CorrectionOperation::Deduplication, o) {
        duplicates_upto(corr, o, k).insert(canonical_of(corr[k]))
    } else {
        duplicates_upto(corr, o, k)
    };
    assert forall|x: Seq<char>| duplicates_upto(corr, o, k + 1).contains(x) <==> next.contains(x) by {
        if duplicates_upto(corr, o, k + 1).contains(x) {
            let i = choose|i: int|
                0 <= i < k + 1 && #[trigger] applies(corr[i], CorrectionOperation::Deduplication, o)
                    && canonical_of(corr[i]) == x;
            if i < k {
                assert(duplicates_upto(corr, o, k).contains(x));
            }
        }
        if duplicates_upto(corr, o, k).contains(x) {
            let i = choose|i: int|
                0 <= i < k && #[trigger] applies(corr[i], CorrectionOperation::Deduplication, o)
                    && canonical_of(corr[i]) == x;
            assert(0 <= i < k + 1);
        }
    }
    assert(duplicates_upto(corr, o, k + 1) =~= next);
}

/// How the collected qualifications grow by one correction.
proof fn lemma_qualifications_step(corr: Seq<Correction>, o: Seq<char>, k: int)
    requires
        0 <= k < corr.len(),
    ensures
        qualifications_upto(corr, o, k + 1) == if applies(corr[k], CorrectionOperation::Qualification, o) {
            qualifications_upto(corr, o, k).insert(corr[k].qualification->0@)
        } else {
            qualifications_upto(corr, o, k)
        },
{
    reveal(retracted_upto);
    reveal(replaced_upto);
    reveal(deduplicated_upto);
    reveal(replacements_upto);
    reveal(replacement_conflict_upto);
    reveal(duplicates_upto);
    reveal(duplicate_conflict_upto);
    reveal(qualifications_upto);
    reveal(correction_ids_upto);
    reveal(replacement_anchor);
    reveal(duplicate_anchor);
    let next = if applies(corr[k], CorrectionOperation::Qualification, o) {
        qualifications_upto(corr, o, k).insert(corr[k].qualification->0@)
    } else {
        qualifications_upto(corr, o, k)
    };
    assert forall|x: Seq<char>| qualifications_upto(corr, o, k + 1).contains(x) <==> next.contains(x) by {
        if qualifications_upto(corr, o, k + 1).contains(x) {
            let i = choose|i: int|
                0 <= i < k + 1 && #[trigger] applies(corr[i], CorrectionOperation::Qualification, o)
                    && corr[i].qualification->0@ == x;
            if i < k {
                assert(qualifications_upto(corr, o, k).contains(x));
            }
        }
        if qualifications_upto(corr, o, k).contains(x) {
            let i = choose|i: int|
                0 <= i < k && #[trigger] applies(corr[i], CorrectionOperation::Qualification, o)
                    && corr[i].qualification->0@ == x;
            assert(0 <= i < k + 1);
        }
    }
    assert(qualifications_upto(corr, o, k + 1) =~= next);
}

/// How the collected correction ids grow by one correction.
proof fn lemma_correction_ids_step(corr: Seq<Correction>, o: Seq<char>, k: int)
    requires
        0 <= k < corr.len(),
    ensures
        correction_ids_upto(corr, o, k + 1) == if corr[k].targets@.contains(o) {
            correction_ids_upto(corr, o, k).insert(corr[k].correction_id@)
        } else {
            correction_ids_upto(corr, o, k)
        },
{
    reveal(retracted_upto);
    reveal(replaced_upto);
    reveal(deduplicated_upto);
    reveal(replacements_upto);
    reveal(replacement_conflict_upto);
    reveal(duplicates_upto);
    reveal(duplicate_conflict_upto);
    reveal(qualifications_upto);
    reveal(correction_ids_upto);
    reveal(replacement_anchor);
    reveal(duplicate_anchor);
    let next = if corr[k].targets@.contains(o) {
        correction_ids_upto(corr, o, k).insert(corr[k].correction_id@)
    } else {
        correction_ids_upto(corr, o, k)
    };
    assert forall|x: Seq<char>| correction_ids_upto(corr, o, k + 1).contains(x) <==> next.contains(x) by {
        if correction_ids_upto(corr, o, k + 1).contains(x) {
            let i = choose|i: int|
                0 <= i < k + 1 && #[trigger] corr[i].targets@.contains(o) && corr[i].correction_id@ == x;
            if i < k {
                assert(correction_ids_upto(corr, o, k).contains(x));
            }
        }
        if correction_ids_upto(corr, o, k).contains(x) {
            let i = choose|i: int|
                0 <= i < k && #[trigger] corr[i].targets@.contains(o) && corr[i].correction_id@ == x;
            assert(0 <= i < k + 1);
        }
    }
    assert(correction_ids_upto(corr, o, k + 1) =~= next);
}

/// The first replacement of the observation among the first `k` corrections is `f`,
/// and unless two of them already disagree, all of them name the set `f` names.
#[verifier::opaque]
pub open spec fn replacement_anchor(corr: Seq<Correction>, o: Seq<char>, k: int, f: Option<usize>) -> bool {
    match f {
        Some(f) => {
            &&& f < k
            &&& applies(corr[f as int], CorrectionOperation::Replacement, o)
            &&& !replacement_conflict_upto(corr, o, k) ==> forall|j: int|
                0 <= j < k && #[trigger] applies(corr[j], CorrectionOperation::Replacement, o)
                    ==> replacement_set(corr[j]) == replacement_set(corr[f as int])
        },
        None => !replaced_upto(corr, o, k),
    }
}

/// The first deduplication of the observation among the first `k` corrections is
/// `f`, and unless two of them already disagree, all of them name its canonical.
#[verifier::opaque]
pub open spec fn duplicate_anchor(corr: Seq<Correction>, o: Seq<char>, k: int, f: Option<usize>) -> bool {
    match f {
        Some(f) => {
            &&& f < k
            &&& applies(corr[f as int], CorrectionOperation::Deduplication, o)
            &&& !duplicate_conflict_upto(corr, o, k) ==> forall|j: int|
                0 <= j < k && #[trigger] applies(corr[j], CorrectionOperation::Deduplication, o)
                    ==> canonical_of(corr[j]) == canonical_of(corr[f as int])
        },
        None => !deduplicated_upto(corr, o, k),
    }
}

/// What an anchor records of the correction it points at.
proof fn lemma_anchor_facts(corr: Seq<Correction>, o: Seq<char>, k: int, fr: Option<usize>, fd: Option<usize>)
    requires
        replacement_anchor(corr, o, k, fr),
        duplicate_anchor(corr, o, k, fd),
    ensures
        fr is Some ==> fr->0 < k && applies(corr[fr->0 as int], CorrectionOperation::Replacement, o),
        fd is Some ==> fd->0 < k && applies(corr[fd->0 as int], CorrectionOperation::Deduplication, o),
{
    reveal(replacement_anchor);
    reveal(duplicate_anchor);
}

/// How a replacement conflict arises by one correction.
proof fn lemma_replacement_conflict_step(corr: Seq<Correction>, o: Seq<char>, k: usize, f: Option<usize>)
    requires
        0 <= k < corr.len(),
        replacement_anchor(corr, o, k as int, f),
    ensures
        replacement_conflict_upto(corr, o, k + 1) == (replacement_conflict_upto(corr, o, k as int) || (
        applies(corr[k as int], CorrectionOperation::Replacement, o) && f is Some && replacement_set(corr[k as int])
            != replacement_set(corr[f->0 as int]))),
        replacement_anchor(
            corr,
            o,
            k + 1,
            if f is None && applies(corr[k as int], CorrectionOperation::Replacement, o) {
                Some(k)
            } else {
                f
            },
        ),
{
    reveal(retracted_upto);
    reveal(replaced_upto);
    reveal(deduplicated_upto);
    reveal(replacements_upto);
    reveal(replacement_conflict_upto);
    reveal(duplicates_upto);
    reveal(duplicate_conflict_upto);
    reveal(qualifications_upto);
    reveal(correction_ids_upto);
    reveal(replacement_anchor);
    reveal(duplicate_anchor);
    let kk = k;
    let k: int = k as int;
    let op = CorrectionOperation::Replacement;
    let grown = replacement_conflict_upto(corr, o, k + 1);
    if grown && !replacement_conflict_upto(corr, o, k) {
        let (i, j) = choose|i: int, j: int|
            0 <= i < k + 1 && 0 <= j < k + 1 && #[trigger] applies(corr[i], op, o) && #[trigger] applies(
                corr[j],
                op,
                o,
            ) && replacement_set(corr[i]) != replacement_set(corr[j]);
        match f {
            Some(g) => {
                if i < k && j < k {
                    assert(replacement_conflict_upto(corr, o, k));
                }
            },
            None => {
                if i < k {
                    assert(replaced_upto(corr, o, k));
                }
                if j < k {
                    assert(replaced_upto(corr, o, k));
                }
            },
        }
    }
    if replacement_conflict_upto(corr, o, k) {
        let (i, j) = choose|i: int, j: int|
            0 <= i < k && 0 <= j < k && #[trigger] applies(corr[i], op, o) && #[trigger] applies(corr[j], op, o)
                && replacement_set(corr[i]) != replacement_set(corr[j]);
        assert(0 <= i < k + 1 && 0 <= j < k + 1);
        assert(grown);
    }
    if applies(corr[k], op, o) && f is Some && replacement_set(corr[k]) != replacement_set(corr[f->0 as int]) {
        let g = f->0 as int;
        assert(applies(corr[g], op, o));
        assert(grown);
    }
    let next = if f is None && applies(corr[k], op, o) {
        Some(kk)
    } else {
        f
    };
    match next {
        Some(g) => {
            if !grown {
                assert forall|j: int| 0 <= j < k + 1 && #[trigger] applies(corr[j], op, o) implies replacement_set(
                    corr[j],
                ) == replacement_set(corr[g as int]) by {
                    if f is None {
                        if j < k {
                            assert(replaced_upto(corr, o, k));
                        }
                    } else if j == k {
                    }
                }
            }
        },
        None => {
            if replaced_upto(corr, o, k + 1) {
                let i = choose|i: int| 0 <= i < k + 1 && #[trigger] applies(corr[i], op, o);
                if i < k {
                    assert(replaced_upto(corr, o, k));
                }
            }
        },
    }
}

/// How a deduplication conflict arises by one correction.
proof fn lemma_duplicate_conflict_step(corr: Seq<Correction>, o: Seq<char>, k: usize, f: Option<usize>)
    requires
        0 <= k < corr.len(),
        duplicate_anchor(corr, o, k as int, f),
    ensures
        duplicate_conflict_upto(corr, o, k + 1) == (duplicate_conflict_upto(corr, o, k as int) || (applies(
            corr[k as int],
            CorrectionOperation::Deduplication,
            o,
        ) && f is Some && canonical_of(corr[k as int]) != canonical_of(corr[f->0 as int]))),
        duplicate_anchor(
            corr,
            o,
            k + 1,
            if f is None && applies(corr[k as int], CorrectionOperation::Deduplication, o) {
                Some(k)
            } else {
                f
            },
        ),
{
    reveal(retracted_upto);
    reveal(replaced_upto);
    reveal(deduplicated_upto);
    reveal(replacements_upto);
    reveal(replacement_conflict_upto);
    reveal(duplicates_upto);
    reveal(duplicate_conflict_upto);
    reveal(qualifications_upto);
    reveal(correction_ids_upto);
    reveal(replacement_anchor);
    reveal(duplicate_anchor);
    let kk = k;
    let k: int = k as int;
    let op = CorrectionOperation::Deduplication;
    let grown = duplicate_conflict_upto(corr, o, k + 1);
    if grown && !duplicate_conflict_upto(corr, o, k) {
        let (i, j) = choose|i: int, j: int|
            0 <= i < k + 1 && 0 <= j < k + 1 && #[trigger] applies(corr[i], op, o) && #[trigger] applies(
                corr[j],
                op,
                o,
            ) && canonical_of(corr[i]) != canonical_of(corr[j]);
        match f {
            Some(g) => {
                if i < k && j < k {
                    assert(duplicate_conflict_upto(corr, o, k));
                }
            },
            None => {
                if i < k {
                    assert(deduplicated_upto(corr, o, k));
                }
                if j < k {
                    assert(deduplicated_upto(corr, o, k));
                }
            },
        }
    }
    if duplicate_conflict_upto(corr, o, k) {
        let (i, j) = choose|i: int, j: int|
            0 <= i < k && 0 <= j < k && #[trigger] applies(corr[i], op, o) && #[trigger] applies(corr[j], op, o)
                && canonical_of(corr[i]) != canonical_of(corr[j]);
        assert(0 <= i < k + 1 && 0 <= j < k + 1);
        assert(grown);
    }
    if applies(corr[k], op, o) && f is Some && canonical_of(corr[k]) != canonical_of(corr[f->0 as int]) {
        let g = f->0 as int;
        assert(applies(corr[g], op, o));
        assert(grown);
    }
    let next = if f is None && applies(corr[k], op, o) {
        Some(kk)
    } else {
        f
    };
    match next {
        Some(g) => {
            if !grown {
                assert forall|j: int| 0 <= j < k + 1 && #[trigger] applies(corr[j], op, o) implies canonical_of(
                    corr[j],
                ) == canonical_of(corr[g as int]) by {
                    if f is None {
                        if j < k {
                            assert(deduplicated_upto(corr, o, k));
                        }
                    } else if j == k {
                    }
                }
            }
        },
        None => {
            if deduplicated_upto(corr, o, k + 1) {
                let i = choose|i: int| 0 <= i < k + 1 && #[trigger] applies(corr[i], op, o);
                if i < k {
                    assert(deduplicated_upto(corr, o, k));
                }
            }
        },
    }
}

/// What every correction of a history says about one observation.
pub struct CorrectionSummary {
    pub retracted: bool,
    pub replaced: bool,
    pub replacements: TextSet,
    pub replacement_conflict: bool,
    pub deduplicated: bool,
    pub duplicates: TextSet,
    pub duplicate_conflict: bool,
    pub qualifications: TextSet,
    pub correction_ids: TextSet,
}

/// The summary matches the first `k` corrections.
pub open spec fn summarizes(s: CorrectionSummary, corr: Seq<Correction>, o: Seq<char>, k: int) -> bool {
    &&& s.retracted == retracted_upto(corr, o, k)
    &&& s.replaced == replaced_upto(corr, o, k)
    &&& s.replacements@.to_set() == replacements_upto(corr, o, k)
    &&& s.replacement_conflict == replacement_conflict_upto(corr, o, k)
    &&& s.deduplicated == deduplicated_upto(corr, o, k)
    &&& s.duplicates@.to_set() == duplicates_upto(corr, o, k)
    &&& s.duplicate_conflict == duplicate_conflict_upto(corr, o, k)
    &&& s.qualifications@.to_set() == qualifications_upto(corr, o, k)
    &&& s.correction_ids@.to_set() == correction_ids_upto(corr, o, k)
}

/// Every correction of the history is valid.
pub open spec fn all_valid_corrections(corr: Seq<Correction>) -> bool {
    forall|k: int| 0 <= k < corr.len() ==> crate::schema::correction_fault(#[trigger] corr[k]) is None
}

/// Folds correction `k` into the summary of the first `k` corrections.
#[verifier::rlimit(60)]
#[verifier::spinoff_prover]
fn absorb_correction(
    s: &mut CorrectionSummary,
    first_replacement: &mut Option<usize>,
    first_duplicate: &mut Option<usize>,
    corr: &Vec<Correction>,
    k: usize,
    o: &str,
)
    requires
        k < corr@.len(),
        all_valid_corrections(corr@),
        summarizes(*old(s), corr@, o@, k as int),
        replacement_anchor(corr@, o@, k as int, *old(first_replacement)),
        duplicate_anchor(corr@, o@, k as int, *old(first_duplicate)),
    ensures
        summarizes(*final(s), corr@, o@, k + 1),
        replacement_anchor(corr@, o@, k + 1, *final(first_replacement)),
        duplicate_anchor(corr@, o@, k + 1, *final(first_duplicate)),
{
    let c = &corr[k];
    let ghost ki = k as int;
    proof {
        crate::schema::lemma_valid_correction(corr@[ki]);
        lemma_flags_step(corr@, o@, ki);
        lemma_replacements_step(corr@, o@, ki);
        lemma_duplicates_step(corr@, o@, ki);
        lemma_qualifications_step(corr@, o@, ki);
        lemma_correction_ids_step(corr@, o@, ki);
        lemma_replacement_conflict_step(corr@, o@, k, *first_replacement);
        lemma_duplicate_conflict_step(corr@, o@, k, *first_duplicate);
        lemma_anchor_facts(corr@, o@, ki, *first_replacement, *first_duplicate);
        match *first_replacement {
            Some(f) => crate::schema::lemma_valid_correction(corr@[f as int]),
            None => {},
        }
        match *first_duplicate {
            Some(f) => crate::schema::lemma_valid_correction(corr@[f as int]),
            None => {},
        }
    }
    if c.targets.contains(o) {
        s.correction_ids.insert(c.correction_id.clone());
        match c.operation {
            CorrectionOperation::Retraction => {
                s.retracted = true;
            },
            CorrectionOperation::Replacement => {
                let ids = c.replacement_ids.as_ref().unwrap();
                s.replacements.extend_from(ids);
                s.replaced = true;
                match *first_replacement {
                    None => {
                        *first_replacement = Some(k);
                    },
                    Some(f) => {
                        if !corr[f].replacement_ids.as_ref().unwrap().same_members(ids) {
                            s.replacement_conflict = true;
                        }
                    },
                }
            },
            CorrectionOperation::Qualification => {
                let q = c.qualification.as_ref().unwrap();
                s.qualifications.insert(q.clone());
            },
            CorrectionOperation::Deduplication => {
                let canonical = c.replacement_ids.as_ref().unwrap().first().unwrap();
                s.duplicates.insert(canonical.clone());
                s.deduplicated = true;
                match *first_duplicate {
                    None => {
                        *first_duplicate = Some(k);
                    },
                    Some(f) => {
                        let other = corr[f].replacement_ids.as_ref().unwrap().first().unwrap();
                        if !text_equal(other.as_str(), canonical.as_str()) {
                            s.duplicate_conflict = true;
                        }
                    },
                }
            },
        }
    }
}

/// Collects what every correction, in order, says about one observation.
fn summarize(corr: &Vec<Correction>, o: &str) -> (summary: CorrectionSummary)
    requires
        all_valid_corrections(corr@),
    ensures
        summarizes(summary, corr@, o@, corr@.len() as int),
{
    let mut s = CorrectionSummary {
        retracted: false,
        replaced: false,
        replacements: TextSet::new(),
        replacement_conflict: false,
        deduplicated: false,
        duplicates: TextSet::new(),
        duplicate_conflict: false,
        qualifications: TextSet::new(),
        correction_ids: TextSet::new(),
    };
    let mut first_replacement: Option<usize> = None;
    let mut first_duplicate: Option<usize> = None;
    proof {
        reveal(retracted_upto);
        reveal(replaced_upto);
        reveal(deduplicated_upto);
        reveal(replacements_upto);
        reveal(replacement_conflict_upto);
        reveal(duplicates_upto);
        reveal(duplicate_conflict_upto);
        reveal(qualifications_upto);
        reveal(correction_ids_upto);
        reveal(replacement_anchor);
        reveal(duplicate_anchor);
        assert(s.replacements@.to_set() =~= replacements_upto(corr@, o@, 0));
        assert(s.duplicates@.to_set() =~= duplicates_upto(corr@, o@, 0));
        assert(s.qualifications@.to_set() =~= qualifications_upto(corr@, o@, 0));
        assert(s.correction_ids@.to_set() =~= correction_ids_upto(corr@, o@, 0));
    }
    let mut k: usize = 0;
    while k < corr.len()
        invariant
            0 <= k <= corr@.len(),
            all_valid_corrections(corr@),
            summarizes(s, corr@, o@, k as int),
            replacement_anchor(corr@, o@, k as int, first_replacement),
            duplicate_anchor(corr@, o@, k as int, first_duplicate),
        decreases corr@.len() - k,
    {
        absorb_correction(&mut s, &mut first_replacement, &mut first_duplicate, corr, k, o);
        k = k + 1;
    }
    s
}

/// The least member of a set of texts in byte order.
pub open spec fn least_text_of(s: Set<Seq<char>>) -> Seq<char> {
    choose|x: Seq<char>| is_least_text(s, x)
}

/// A set has at most one least member.
pub proof fn lemma_least_text_unique(s: Set<Seq<char>>, x: Seq<char>)
    requires
        is_least_text(s, x),
    ensures
        least_text_of(s) == x,
{
    let y = least_text_of(s);
    assert(is_least_text(s, y));
    if y != x {
        assert(text_lt(x, y));
        assert(text_lt(y, x));
        lemma_text_lt_asymmetric(x, y);
    }
}

/// What replay concludes about one observation.
#[derive(Clone, Debug, PartialEq, Eq)]
pub enum Disposition {
    Active,
    Retracted,
    Replaced { replacement_ids: TextSet },
    Duplicate { canonical_id: String },
}

/// A disposition as plain values.
pub ghost enum DispositionView {
    Active,
    Retracted,
    Replaced(Set<Seq<char>>),
    Duplicate(Seq<char>),
}

impl View for Disposition {
    type V = DispositionView;

    open spec fn view(&self) -> DispositionView {
        match self {
            Disposition::Active => DispositionView::Active,
            Disposition::Retracted => DispositionView::Retracted,
            Disposition::Replaced { replacement_ids } => DispositionView::Replaced(replacement_ids@.to_set()),
            Disposition::Duplicate { canonical_id } => DispositionView::Duplicate(canonical_id@),
        }
    }
}

/// The disposition every correction of a history gives an observation: a
/// retraction wins over a replacement, a replacement over a deduplication; a
/// deduplication makes the observation a duplicate of the least canonical record
/// named for it, unless that record is the observation itself.
pub open spec fn disposition_of(corr: Seq<Correction>, o: Seq<char>) -> DispositionView {
    let n = corr.len() as int;
    if retracted_upto(corr, o, n) {
        DispositionView::Retracted
    } else if replaced_upto(corr, o, n) {
        DispositionView::Replaced(replacements_upto(corr, o, n))
    } else if deduplicated_upto(corr, o, n) {
        let canonical = least_text_of(duplicates_upto(corr, o, n));
        if canonical == o {
            DispositionView::Active
        } else {
            DispositionView::Duplicate(canonical)
        }
    } else {
        DispositionView::Active
    }
}

/// An observation with what replay concluded about it.
#[derive(Clone, Debug, PartialEq)]
pub struct ObservationState {
    pub record: Observation,
    pub disposition: Disposition,
    pub qualifications: TextSet,
    pub correction_ids: TextSet,
}

/// An observation state as plain values.
pub ghost struct ObservationView {
    pub record: Observation,
    pub disposition: DispositionView,
    pub qualifications: Set<Seq<char>>,
    pub correction_ids: Set<Seq<char>>,
}

impl View for ObservationState {
    type V = ObservationView;

    open spec fn view(&self) -> ObservationView {
        ObservationView {
            record: self.record,
            disposition: self.disposition@,
            qualifications: self.qualifications@.to_set(),
            correction_ids: self.correction_ids@.to_set(),
        }
    }
}

/// The state every correction of a history gives an observation.
pub open spec fn observation_state_of(corr: Seq<Correction>, o: Observation) -> ObservationView {
    let id = o.observation_id@;
    let n = corr.len() as int;
    ObservationView {
        record: o,
        disposition: disposition_of(corr, id),
        qualifications: qualifications_upto(corr, id, n),
        correction_ids: correction_ids_upto(corr, id, n),
    }
}

/// Corrections that disagree, kept explicit instead of resolved.
#[derive(Clone, Debug, PartialEq, Eq)]
pub struct SemanticConflict {
    pub conflict_id: String,
    pub record_ids: TextSet,
    pub description: String,
}

/// A semantic conflict as plain values.
pub ghost struct ConflictView {
    pub conflict_id: Seq<char>,
    pub record_ids: Set<Seq<char>>,
    pub description: Seq<char>,
}

impl View for SemanticConflict {
    type V = ConflictView;

    open spec fn view(&self) -> ConflictView {
        ConflictView {
            conflict_id: self.conflict_id@,
            record_ids: self.record_ids@.to_set(),
            description: self.description@,
        }
    }
}

/// The conflict of deduplications that name different canonical records.
pub open spec fn deduplication_conflict_of(corr: Seq<Correction>, o: Seq<char>) -> ConflictView {
    ConflictView {
        conflict_id: "conflict:deduplication:"@ + o,
        record_ids: duplicates_upto(corr, o, corr.len() as int),
        description: "multiple deduplication corrections name different canonical records"@,
    }
}

/// The conflict of replacements that name different replacement sets.
pub open spec fn replacement_conflict_of(corr: Seq<Correction>, o: Seq<char>) -> ConflictView {
    ConflictView {
        conflict_id: "conflict:replacement:"@ + o,
        record_ids: replacements_upto(corr, o, corr.len() as int),
        description: "multiple corrections name different replacement sets"@,
    }
}

/// The deduplication conflicts of a history, observations in order.
pub open spec fn deduplication_conflicts(obs: Seq<Observation>, corr: Seq<Correction>) -> Seq<ConflictView>
    decreases obs.len(),
{
    if obs.len() == 0 {
        Seq::empty()
    } else {
        let before = deduplication_conflicts(obs.drop_last(), corr);
        let o = obs.last().observation_id@;
        if duplicate_conflict_upto(corr, o, corr.len() as int) {
            before.push(deduplication_conflict_of(corr, o))
        } else {
            before
        }
    }
}

/// The replacement conflicts of a history, observations in order.
pub open spec fn replacement_conflicts(obs: Seq<Observation>, corr: Seq<Correction>) -> Seq<ConflictView>
    decreases obs.len(),
{
    if obs.len() == 0 {
        Seq::empty()
    } else {
        let before = replacement_conflicts(obs.drop_last(), corr);
        let o = obs.last().observation_id@;
        if replacement_conflict_upto(corr, o, corr.len() as int) {
            before.push(replacement_conflict_of(corr, o))
        } else {
            before
        }
    }
}

/// A deduplicated observation has a canonical record.
proof fn lemma_deduplicated_has_canonical(corr: Seq<Correction>, o: Seq<char>, k: int)
    requires
        deduplicated_upto(corr, o, k),
    ensures
        duplicates_upto(corr, o, k) != Set::<Seq<char>>::empty(),
{
    reveal(deduplicated_upto);
    reveal(duplicates_upto);
    let i = choose|i: int| 0 <= i < k && #[trigger] applies(corr[i], CorrectionOperation::Deduplication, o);
    assert(duplicates_upto(corr, o, k).contains(canonical_of(corr[i])));
}

/// Materializes one observation: its state, and the deduplication and replacement
/// conflicts its corrections raise.
fn materialize(o: Observation, corr: &Vec<Correction>) -> (out: (
    ObservationState,
    Option<SemanticConflict>,
    Option<SemanticConflict>,
))
    requires
        all_valid_corrections(corr@),
    ensures
        out.0@ == observation_state_of(corr@, o),
        match out.1 {
            Some(c) => duplicate_conflict_upto(corr@, o.observation_id@, corr@.len() as int) && c@
                == deduplication_conflict_of(corr@, o.observation_id@),
            None => !duplicate_conflict_upto(corr@, o.observation_id@, corr@.len() as int),
        },
        match out.2 {
            Some(c) => replacement_conflict_upto(corr@, o.observation_id@, corr@.len() as int) && c@
                == replacement_conflict_of(corr@, o.observation_id@),
            None => !replacement_conflict_upto(corr@, o.observation_id@, corr@.len() as int),
        },
{
    let ghost id = o.observation_id@;
    let ghost n = corr@.len() as int;
    let s = summarize(corr, o.observation_id.as_str());
    let dedup_conflict = if s.duplicate_conflict {
        let mut conflict_id = "conflict:deduplication:".to_owned();
        conflict_id.append(o.observation_id.as_str());
        Some(
            SemanticConflict {
                conflict_id,
                record_ids: s.duplicates.clone(),
                description: "multiple deduplication corrections name different canonical records".to_owned(),
            },
        )
    } else {
        None
    };
    let replacement_conflict = if s.replacement_conflict {
        let mut conflict_id = "conflict:replacement:".to_owned();
        conflict_id.append(o.observation_id.as_str());
        Some(
            SemanticConflict {
                conflict_id,
                record_ids: s.replacements.clone(),
                description: "multiple corrections name different replacement sets".to_owned(),
            },
        )
    } else {
        None
    };
    let disposition = if s.retracted {
        Disposition::Retracted
    } else if s.replaced {
        Disposition::Replaced { replacement_ids: s.replacements }
    } else if s.deduplicated {
        proof {
            lemma_deduplicated_has_canonical(corr@, id, n);
        }
        match s.duplicates.first() {
            Some(canonical) => {
                proof {
                    lemma_least_text_unique(s.duplicates@.to_set(), canonical@);
                }
                if text_equal(canonical.as_str(), o.observation_id.as_str()) {
                    Disposition::Active
                } else {
                    Disposition::Duplicate { canonical_id: canonical.clone() }
                }
            },
            None => {
                proof {
                    assert(s.duplicates@ =~= Seq::<Seq<char>>::empty());
                    assert(s.duplicates@.to_set() =~= Set::<Seq<char>>::empty());
                }
                Disposition::Active
            },
        }
    } else {
        Disposition::Active
    };
    let state = ObservationState {
        record: o,
        disposition,
        qualifications: s.qualifications,
        correction_ids: s.correction_ids,
    };
    (state, dedup_conflict, replacement_conflict)
}

/// Canonical state reconstructed from a complete admitted history. Each vector is
/// kept in increasing byte order of its ids, as a map keyed by id keeps it.
#[derive(Clone, Debug, PartialEq)]
pub struct EvidenceState {
    pub observations: Vec<ObservationState>,
    pub corrections: Vec<Correction>,
    pub frontiers: Vec<Frontier>,
    pub conflicts: Vec<SemanticConflict>,
}

impl Default for EvidenceState {
    /// The state of an empty history.
    fn default() -> (state: EvidenceState)
        ensures
            state.observations@.len() == 0,
            state.corrections@.len() == 0,
            state.frontiers@.len() == 0,
            state.conflicts@.len() == 0,
    {
        EvidenceState {
            observations: Vec::new(),
            corrections: Vec::new(),
            frontiers: Vec::new(),
            conflicts: Vec::new(),
        }
    }
}

/// An evidence state as plain values.
pub ghost struct EvidenceView {
    pub observations: Seq<ObservationView>,
    pub corrections: Seq<Correction>,
    pub frontiers: Seq<Frontier>,
    pub conflicts: Seq<ConflictView>,
}

impl View for EvidenceState {
    type V = EvidenceView;

    open spec fn view(&self) -> EvidenceView {
        EvidenceView {
            observations: self.observations@.map_values(|s: ObservationState| s@),
            corrections: self.corrections@,
            frontiers: self.frontiers@,
            conflicts: self.conflicts@.map_values(|c: SemanticConflict| c@),
        }
    }
}

/// The ordering evidence of a history.
pub open spec fn replay_points(rs: Seq<EvidenceRecord>) -> Seq<PointView> {
    history_points(sorted_observations(rs), sorted_corrections(rs))
}

/// A history replays: every record is valid and its id unique, the ordering
/// evidence has no conflict and no parent cycle, and every reference of every
/// correction resolves to an observation that does not follow the correction.
pub open spec fn replay_succeeds(rs: Seq<EvidenceRecord>) -> bool {
    &&& intake_ok(rs)
    &&& conflict_free(replay_points(rs))
    &&& acyclic(replay_points(rs))
    &&& history_check(sorted_observations(rs), sorted_corrections(rs), replay_points(rs)) is None
}

/// The state a history replays to: observations, corrections and frontiers in id
/// order, each observation with what its corrections conclude, and the
/// deduplication conflicts followed by the replacement conflicts, each in
/// observation order (the order of their conflict ids).
pub open spec fn replayed_state(rs: Seq<EvidenceRecord>) -> EvidenceView {
    let obs = sorted_observations(rs);
    let corr = sorted_corrections(rs);
    EvidenceView {
        observations: obs.map_values(|o: Observation| observation_state_of(corr, o)),
        corrections: corr,
        frontiers: sorted_frontiers(rs),
        conflicts: deduplication_conflicts(obs, corr) + replacement_conflicts(obs, corr),
    }
}

/// The corrections of an accepted history are valid.
proof fn lemma_intake_corrections_valid(rs: Seq<EvidenceRecord>, corr: Seq<Correction>)
    requires
        intake_ok(rs),
        corr.to_set() == correction_records(rs),
    ensures
        all_valid_corrections(corr),
{
    reveal(record_fault);
    assert forall|k: int| 0 <= k < corr.len() implies crate::schema::correction_fault(#[trigger] corr[k]) is None by {
        assert(corr.to_set().contains(corr[k]));
        let i = choose|i: int| 0 <= i < rs.len() && #[trigger] rs[i] == EvidenceRecord::Correction(corr[k]);
        assert(!intake_fails_at(rs, i));
    }
}

/// Collects the ordering point of every observation, then of every correction.
fn collect_points(obs: &Vec<Observation>, corr: &Vec<Correction>) -> (points: Vec<OrderingPoint>)
    ensures
        views(points@) == history_points(obs@, corr@),
{
    let mut points: Vec<OrderingPoint> = Vec::new();
    let mut i: usize = 0;
    while i < obs.len()
        invariant
            0 <= i <= obs@.len(),
            points@.len() == i,
            forall|k: int| 0 <= k < i ==> (#[trigger] points@[k])@ == observation_point(obs@[k]),
        decreases obs@.len() - i,
    {
        points.push(obs[i].ordering_point());
        i = i + 1;
    }
    let m = obs.len();
    let mut j: usize = 0;
    while j < corr.len()
        invariant
            0 <= j <= corr@.len(),
            m == obs@.len(),
            points@.len() == m + j,
            forall|k: int| 0 <= k < m ==> (#[trigger] points@[k])@ == observation_point(obs@[k]),
            forall|k: int| 0 <= k < j ==> (#[trigger] points@[m + k])@ == correction_point(corr@[k]),
        decreases corr@.len() - j,
    {
        points.push(corr[j].ordering_point());
        proof {
            assert(points@[m + j]@ == correction_point(corr@[j as int]));
        }
        j = j + 1;
    }
    proof {
        let target = history_points(obs@, corr@);
        assert forall|k: int| 0 <= k < target.len() implies views(points@)[k] == target[k] by {
            if k >= m {
                assert(points@[m + (k - m)]@ == correction_point(corr@[k - m]));
            }
        }
        assert(views(points@) =~= target);
    }
    points
}

/// Materializes every observation in order, with the conflicts of each.
fn materialize_all(obs: Vec<Observation>, corr: &Vec<Correction>) -> (out: (
    Vec<ObservationState>,
    Vec<SemanticConflict>,
))
    requires
        all_valid_corrections(corr@),
    ensures
        out.0@.map_values(|s: ObservationState| s@) == obs@.map_values(
            |o: Observation| observation_state_of(corr@, o),
        ),
        out.1@.map_values(|c: SemanticConflict| c@) == deduplication_conflicts(obs@, corr@)
            + replacement_conflicts(obs@, corr@),
{
    let ghost all = obs@;
    let n = obs.len();
    let mut rest = obs;
    let mut states: Vec<ObservationState> = Vec::new();
    let mut dedups: Vec<SemanticConflict> = Vec::new();
    let mut repls: Vec<SemanticConflict> = Vec::new();
    let mut i: usize = 0;
    proof {
        assert(all.subrange(0, 0) =~= Seq::<Observation>::empty());
        assert(rest@ =~= all.subrange(0, n as int));
        assert(dedups@.map_values(|c: SemanticConflict| c@) =~= deduplication_conflicts(all.subrange(0, 0), corr@));
        assert(repls@.map_values(|c: SemanticConflict| c@) =~= replacement_conflicts(all.subrange(0, 0), corr@));
    }
    while i < n
        invariant
            0 <= i <= n,
            n == all.len(),
            all_valid_corrections(corr@),
            rest@ == all.subrange(i as int, n as int),
            states@.len() == i,
            forall|k: int| 0 <= k < i ==> (#[trigger] states@[k])@ == observation_state_of(corr@, all[k]),
            dedups@.map_values(|c: SemanticConflict| c@) == deduplication_conflicts(all.subrange(0, i as int), corr@),
            repls@.map_values(|c: SemanticConflict| c@) == replacement_conflicts(all.subrange(0, i as int), corr@),
        decreases n - i,
    {
        let o = rest.remove(0);
        let ghost prefix = all.subrange(0, i + 1);
        proof {
            assert(o == all[i as int]);
            assert(rest@ =~= all.subrange(i + 1, n as int));
            assert(prefix.drop_last() =~= all.subrange(0, i as int));
            assert(prefix.last() == o);
        }
        let (state, dedup, repl) = materialize(o, corr);
        states.push(state);
        match dedup {
            Some(c) => dedups.push(c),
            None => {},
        }
        match repl {
            Some(c) => repls.push(c),
            None => {},
        }
        proof {
            assert(dedups@.map_values(|c: SemanticConflict| c@) =~= deduplication_conflicts(prefix, corr@));
            assert(repls@.map_values(|c: SemanticConflict| c@) =~= replacement_conflicts(prefix, corr@));
        }
        i = i + 1;
    }
    let ghost d = dedups@;
    let ghost r = repls@;
    dedups.append(&mut repls);
    proof {
        assert(all.subrange(0, n as int) =~= all);
        assert(states@.map_values(|s: ObservationState| s@) =~= all.map_values(
            |o: Observation| observation_state_of(corr@, o),
        ));
        assert(dedups@.map_values(|c: SemanticConflict| c@) =~= d.map_values(|c: SemanticConflict| c@) + r.map_values(
            |c: SemanticConflict| c@,
        ));
    }
    (states, dedups)
}

/// What a refusal of a history says of it, whatever order its records come in:
/// the least repeated id; else the schema fault of the invalid record with the
/// least id; else the ordering evidence's failure; else the first failing
/// correction check in id order.
pub open spec fn refusal_describes(rs: Seq<EvidenceRecord>, e: CoreError) -> bool {
    match e {
        CoreError::Schema(_) | CoreError::DuplicateRecord(_) => intake_refusal(rs, e),
        CoreError::Order(o) => intake_ok(rs) && describes_ordering_failure(replay_points(rs), o),
        _ => {
            &&& intake_ok(rs)
            &&& conflict_free(replay_points(rs))
            &&& acyclic(replay_points(rs))
            &&& history_check(sorted_observations(rs), sorted_corrections(rs), replay_points(rs))
                == check_error_view(e)
            &&& check_error_view(e) is Some
        },
    }
}

impl EvidenceState {
    /// Replays a complete history. The order of the records cannot affect the
    /// result: a refusal names the least repeated id or the invalid record with
    /// the least id, and everything after intake reads the records in id order.
    pub fn replay(records: Vec<EvidenceRecord>) -> (result: Result<EvidenceState, CoreError>)
        ensures
            result is Ok <==> replay_succeeds(records@),
            match result {
                Ok(state) => state@ == replayed_state(records@),
                Err(e) => refusal_describes(records@, e),
            },
    {
        let ghost rs = records@;
        let split = match intake(records) {
            Ok(split) => split,
            Err(e) => {
                return Err(e);
            },
        };
        let Intake { observations, corrections, frontiers } = split;
        proof {
            lemma_intake_corrections_valid(rs, corrections@);
        }
        let points = collect_points(&observations, &corrections);
        let order = match PartialOrder::new(points) {
            Ok(order) => order,
            Err(e) => {
                return Err(CoreError::Order(e));
            },
        };
        match check_history(&observations, &corrections, &order) {
            Ok(()) => {},
            Err(e) => {
                return Err(e);
            },
        }
        let (states, conflicts) = materialize_all(observations, &corrections);
        Ok(EvidenceState { observations: states, corrections, frontiers, conflicts })
    }
}

/// Every reference a successful replay accepts resolves: each target of each
/// correction, and each replacement named by a replacement or a deduplication
/// correction (the canonical of a deduplication), is an observation of the
/// history that the correction does not precede.
pub proof fn lemma_replay_references_resolve(rs: Seq<EvidenceRecord>, k: int, x: Seq<char>)
    requires
        replay_succeeds(rs),
        0 <= k < sorted_corrections(rs).len(),
    ensures
        ({
            let c = sorted_corrections(rs)[k];
            let obs = sorted_observations(rs);
            let names = c.targets@.contains(x) || ((c.operation == CorrectionOperation::Replacement
                || c.operation == CorrectionOperation::Deduplication) && c.replacement_ids is Some
                && c.replacement_ids->0@.contains(x));
            names ==> (exists|i: int| 0 <= i < obs.len() && (#[trigger] obs[i]).observation_id@ == x)
                && relation_of(replay_points(rs), c.correction_id@, x) != OrderRelation::Before
        }),
{
    let obs = sorted_observations(rs);
    let corr = sorted_corrections(rs);
    let pts = replay_points(rs);
    let c = corr[k];
    let checks = corr.map_values(|c: Correction| correction_check(obs, pts, c));
    if checks[k] is Some {
        lemma_first_some_found(checks, k);
    }
    assert(correction_check(obs, pts, c) is None);
    let targets = reference_faults(obs, pts, c, c.targets@, false);
    if c.targets@.contains(x) {
        let m = choose|m: int| 0 <= m < c.targets@.len() && c.targets@[m] == x;
        if targets[m] is Some {
            lemma_first_some_found(targets, m);
        }
        assert(target_fault(obs, pts, c, x) is None);
    } else if (c.operation == CorrectionOperation::Replacement || c.operation == CorrectionOperation::Deduplication)
        && c.replacement_ids is Some && c.replacement_ids->0@.contains(x) {
        assert(first_some(targets) is None);
        let repls = reference_faults(obs, pts, c, c.replacement_ids->0@, true);
        let m = choose|m: int| 0 <= m < c.replacement_ids->0@.len() && c.replacement_ids->0@[m] == x;
        if repls[m] is Some {
            lemma_first_some_found(repls, m);
        }
        assert(replacement_fault(obs, pts, c, x) is None);
    }
}

/// A refusal for a missing reference names a correction of the history and an id
/// that it really references, and no observation of the history carries that id:
/// a missing target is one of the correction's targets, and a missing replacement
/// is among the replacements named by a replacement or deduplication correction.
pub proof fn lemma_missing_reference_is_missing(rs: Seq<EvidenceRecord>, e: CoreError)
    requires
        refusal_describes(rs, e),
    ensures
        ({
            let obs = sorted_observations(rs);
            let corr = sorted_corrections(rs);
            &&& e matches CoreError::MissingTarget { correction_id, target_id } ==> (forall|i: int|
                0 <= i < obs.len() ==> (#[trigger] obs[i]).observation_id@ != target_id@) && exists|k: int|
                0 <= k < corr.len() && (#[trigger] corr[k]).correction_id@ == correction_id@
                    && corr[k].targets@.contains(target_id@)
            &&& e matches CoreError::MissingReplacement { correction_id, replacement_id } ==> (forall|i: int|
                0 <= i < obs.len() ==> (#[trigger] obs[i]).observation_id@ != replacement_id@) && exists|k: int|
                0 <= k < corr.len() && (#[trigger] corr[k]).correction_id@ == correction_id@ && (corr[k].operation
                    == CorrectionOperation::Replacement || corr[k].operation == CorrectionOperation::Deduplication)
                    && corr[k].replacement_ids->0@.contains(replacement_id@)
        }),
{
    let obs = sorted_observations(rs);
    let corr = sorted_corrections(rs);
    let pts = replay_points(rs);
    if check_error_view(e) is Some {
        let checks = corr.map_values(|c: Correction| correction_check(obs, pts, c));
        lemma_first_some_from(checks);
        let k = choose|k: int| 0 <= k < checks.len() && #[trigger] checks[k] == first_some(checks);
        let c = corr[k];
        assert(correction_check(obs, pts, c) == check_error_view(e));
        let targets = reference_faults(obs, pts, c, c.targets@, false);
        lemma_first_some_from(targets);
        if first_some(targets) is Some {
            let m = choose|m: int| 0 <= m < targets.len() && #[trigger] targets[m] == first_some(targets);
            assert(targets[m] == target_fault(obs, pts, c, c.targets@[m]));
            assert(c.targets@.contains(c.targets@[m]));
        } else {
            let repls = reference_faults(obs, pts, c, c.replacement_ids->0@, true);
            lemma_first_some_from(repls);
            let m = choose|m: int| 0 <= m < repls.len() && #[trigger] repls[m] == first_some(repls);
            assert(repls[m] == replacement_fault(obs, pts, c, c.replacement_ids->0@[m]));
            assert(c.replacement_ids->0@.contains(c.replacement_ids->0@[m]));
        }
    }
}

/// `rs2` holds the records of `rs1` rearranged: record `i` of `rs2` is record
/// `perm[i]` of `rs1`, and `inv` undoes `perm`.
pub open spec fn is_rearrangement(
    rs1: Seq<EvidenceRecord>,
    rs2: Seq<EvidenceRecord>,
    perm: Seq<int>,
    inv: Seq<int>,
) -> bool {
    &&& rs1.len() == rs2.len()
    &&& perm.len() == rs2.len()
    &&& inv.len() == rs1.len()
    &&& forall|i: int|
        0 <= i < rs2.len() ==> 0 <= #[trigger] perm[i] < rs1.len() && rs2[i] == rs1[perm[i]] && inv[perm[i]]
            == i
    &&& forall|j: int| 0 <= j < rs1.len() ==> 0 <= #[trigger] inv[j] < rs2.len() && perm[inv[j]] == j
}

proof fn lemma_rearrangement_symmetric(
    rs1: Seq<EvidenceRecord>,
    rs2: Seq<EvidenceRecord>,
    perm: Seq<int>,
    inv: Seq<int>,
)
    requires
        is_rearrangement(rs1, rs2, perm, inv),
    ensures
        is_rearrangement(rs2, rs1, inv, perm),
{
    assert forall|j: int| 0 <= j < rs1.len() implies rs1[j] == rs2[#[trigger] inv[j]] by {
        assert(rs2[inv[j]] == rs1[perm[inv[j]]]);
    }
}

/// Rearranging a history keeps its records of each kind.
proof fn lemma_rearranged_kinds(
    rs1: Seq<EvidenceRecord>,
    rs2: Seq<EvidenceRecord>,
    perm: Seq<int>,
    inv: Seq<int>,
)
    requires
        is_rearrangement(rs1, rs2, perm, inv),
    ensures
        observation_records(rs1) == observation_records(rs2),
        correction_records(rs1) == correction_records(rs2),
        frontier_records(rs1) == frontier_records(rs2),
{
    lemma_rearrangement_symmetric(rs1, rs2, perm, inv);
    assert forall|o: Observation| observation_records(rs1).contains(o) <==> observation_records(rs2).contains(o) by {
        let r = EvidenceRecord::Observation(Box::new(o));
        if observation_records(rs1).contains(o) {
            let i = choose|i: int| 0 <= i < rs1.len() && #[trigger] rs1[i] == r;
            assert(rs2[inv[i]] == r);
        }
        if observation_records(rs2).contains(o) {
            let i = choose|i: int| 0 <= i < rs2.len() && #[trigger] rs2[i] == r;
            assert(rs1[perm[i]] == r);
        }
    }
    assert forall|c: Correction| correction_records(rs1).contains(c) <==> correction_records(rs2).contains(c) by {
        let r = EvidenceRecord::Correction(c);
        if correction_records(rs1).contains(c) {
            let i = choose|i: int| 0 <= i < rs1.len() && #[trigger] rs1[i] == r;
            assert(rs2[inv[i]] == r);
        }
        if correction_records(rs2).contains(c) {
            let i = choose|i: int| 0 <= i < rs2.len() && #[trigger] rs2[i] == r;
            assert(rs1[perm[i]] == r);
        }
    }
    assert forall|f: Frontier| frontier_records(rs1).contains(f) <==> frontier_records(rs2).contains(f) by {
        let r = EvidenceRecord::Frontier(f);
        if frontier_records(rs1).contains(f) {
            let i = choose|i: int| 0 <= i < rs1.len() && #[trigger] rs1[i] == r;
            assert(rs2[inv[i]] == r);
        }
        if frontier_records(rs2).contains(f) {
            let i = choose|i: int| 0 <= i < rs2.len() && #[trigger] rs2[i] == r;
            assert(rs1[perm[i]] == r);
        }
    }
    assert(observation_records(rs1) =~= observation_records(rs2));
    assert(correction_records(rs1) =~= correction_records(rs2));
    assert(frontier_records(rs1) =~= frontier_records(rs2));
}

/// An accepted history stays accepted when rearranged.
proof fn lemma_rearranged_intake(
    rs1: Seq<EvidenceRecord>,
    rs2: Seq<EvidenceRecord>,
    perm: Seq<int>,
    inv: Seq<int>,
)
    requires
        is_rearrangement(rs1, rs2, perm, inv),
        intake_ok(rs1),
    ensures
        intake_ok(rs2),
{
    assert forall|i: int| 0 <= i < rs2.len() implies !intake_fails_at(rs2, i) by {
        assert(rs2[i] == rs1[perm[i]]);
        assert(!intake_fails_at(rs1, perm[i]));
        if repeats_record_id(rs2, i) {
            let k = choose|k: int| 0 <= k < i && record_id_of(#[trigger] rs2[k]) == record_id_of(rs2[i]);
            assert(rs2[k] == rs1[perm[k]]);
            assert(perm[k] != perm[i]);
            if perm[k] < perm[i] {
                assert(repeats_record_id(rs1, perm[i]));
            } else {
                assert(!intake_fails_at(rs1, perm[k]));
                assert(repeats_record_id(rs1, perm[k]));
            }
        }
    }
}

/// The order in which records are handed to replay cannot affect the result: a
/// rearranged history replays exactly when the given one does, and once every record
/// is accepted, to the same state, over the same ordering evidence, with the same
/// reference check.
pub proof fn lemma_replay_order_independent(
    rs1: Seq<EvidenceRecord>,
    rs2: Seq<EvidenceRecord>,
    perm: Seq<int>,
    inv: Seq<int>,
)
    requires
        is_rearrangement(rs1, rs2, perm, inv),
    ensures
        intake_ok(rs1) == intake_ok(rs2),
        replay_succeeds(rs1) == replay_succeeds(rs2),
        replay_points(rs1) == replay_points(rs2),
        history_check(sorted_observations(rs1), sorted_corrections(rs1), replay_points(rs1)) == history_check(
            sorted_observations(rs2),
            sorted_corrections(rs2),
            replay_points(rs2),
        ),
        replayed_state(rs1) == replayed_state(rs2),
{
    lemma_rearranged_kinds(rs1, rs2, perm, inv);
    lemma_rearrangement_symmetric(rs1, rs2, perm, inv);
    if intake_ok(rs1) {
        lemma_rearranged_intake(rs1, rs2, perm, inv);
    }
    if intake_ok(rs2) {
        lemma_rearranged_intake(rs2, rs1, inv, perm);
    }
    assert(sorted_observations(rs1) == sorted_observations(rs2));
    assert(sorted_corrections(rs1) == sorted_corrections(rs2));
    assert(sorted_frontiers(rs1) == sorted_frontiers(rs2));
}

/// Rearranging a history keeps its repeated ids and the invalid record with the
/// least id.
proof fn lemma_rearranged_intake_faults(
    rs1: Seq<EvidenceRecord>,
    rs2: Seq<EvidenceRecord>,
    perm: Seq<int>,
    inv: Seq<int>,
)
    requires
        is_rearrangement(rs1, rs2, perm, inv),
    ensures
        forall|x: Seq<char>| #[trigger] id_repeated(rs1, x) ==> id_repeated(rs2, x),
        forall|i: int|
            #[trigger] least_faulty(rs1, i) ==> least_faulty(rs2, inv[i]) && rs2[inv[i]] == rs1[i],
{
    lemma_rearrangement_symmetric(rs1, rs2, perm, inv);
    assert forall|x: Seq<char>| #[trigger] id_repeated(rs1, x) implies id_repeated(rs2, x) by {
        let (i, j) = choose|i: int, j: int|
            0 <= i < j < rs1.len() && record_id_of(#[trigger] rs1[i]) == x && record_id_of(#[trigger] rs1[j]) == x;
        let a = inv[i];
        let b = inv[j];
        assert(rs2[a] == rs1[i] && rs2[b] == rs1[j]);
        assert(a != b);
        if a < b {
            assert(record_id_of(rs2[a]) == x && record_id_of(rs2[b]) == x);
        } else {
            assert(record_id_of(rs2[b]) == x && record_id_of(rs2[a]) == x);
        }
    }
    assert forall|i: int| #[trigger] least_faulty(rs1, i) implies least_faulty(rs2, inv[i]) && rs2[inv[i]] == rs1[i] by {
        assert(rs2[inv[i]] == rs1[i]);
        assert(is_faulty(rs2, inv[i]));
        assert forall|k: int| #[trigger] is_faulty(rs2, k) implies record_id_of(rs2[inv[i]]) == record_id_of(rs2[k])
            || text_lt(record_id_of(rs2[inv[i]]), record_id_of(rs2[k])) by {
            assert(rs2[k] == rs1[perm[k]]);
            assert(is_faulty(rs1, perm[k]));
        }
    }
}

/// The order in which records are handed to replay cannot affect a refusal
/// either: a history and any rearrangement of it admit exactly the same errors,
/// the least repeated id, the schema fault of the invalid record with the least
/// id, the ordering failure or the failing correction check.
pub proof fn lemma_refusal_order_independent(
    rs1: Seq<EvidenceRecord>,
    rs2: Seq<EvidenceRecord>,
    perm: Seq<int>,
    inv: Seq<int>,
)
    requires
        is_rearrangement(rs1, rs2, perm, inv),
    ensures
        forall|e: CoreError| #[trigger] refusal_describes(rs1, e) == refusal_describes(rs2, e),
{
    lemma_replay_order_independent(rs1, rs2, perm, inv);
    lemma_rearrangement_symmetric(rs1, rs2, perm, inv);
    lemma_rearranged_intake_faults(rs1, rs2, perm, inv);
    lemma_rearranged_intake_faults(rs2, rs1, inv, perm);
    assert forall|x: Seq<char>| #[trigger] id_repeated(rs1, x) == id_repeated(rs2, x) by {}
    assert(has_repeated_id(rs1) == has_repeated_id(rs2)) by {
        if has_repeated_id(rs1) {
            let x = choose|x: Seq<char>| #[trigger] id_repeated(rs1, x);
            assert(id_repeated(rs2, x));
        }
        if has_repeated_id(rs2) {
            let x = choose|x: Seq<char>| #[trigger] id_repeated(rs2, x);
            assert(id_repeated(rs1, x));
        }
    }
    assert forall|e: CoreError| #[trigger] refusal_describes(rs1, e) == refusal_describes(rs2, e) by {
        match e {
            CoreError::DuplicateRecord(id) => {
                assert(least_repeated_id(rs1, id@) == least_repeated_id(rs2, id@));
            },
            CoreError::Schema(f) => {
                if refusal_describes(rs1, e) {
                    let i = choose|i: int| #[trigger] least_faulty(rs1, i) && record_fault(rs1[i]) == Some(f@);
                    assert(least_faulty(rs2, inv[i]));
                }
                if refusal_describes(rs2, e) {
                    let i = choose|i: int| #[trigger] least_faulty(rs2, i) && record_fault(rs2[i]) == Some(f@);
                    assert(least_faulty(rs1, perm[i]));
                }
            },
            _ => {},
        }
    }
}

impl Keyed for ObservationState {
    open spec fn key_of(&self) -> Seq<char> {
        self.record.observation_id@
    }

    fn key(&self) -> (k: &str) {
        self.record.observation_id.as_str()
    }
}

impl Keyed for SemanticConflict {
    open spec fn key_of(&self) -> Seq<char> {
        self.conflict_id@
    }

    fn key(&self) -> (k: &str) {
        self.conflict_id.as_str()
    }
}

/// The ids of the observations whose disposition is active.
pub open spec fn active_ids(states: Seq<ObservationState>) -> Set<Seq<char>> {
    Set::new(
        |x: Seq<char>|
            exists|i: int|
                0 <= i < states.len() && (#[trigger] states[i]).record.observation_id@ == x
                    && states[i].disposition is Active,
    )
}

impl EvidenceState {
    /// The ids of the observations that remain active support.
    pub fn active_observation_ids(&self) -> (ids: TextSet)
        ensures
            ids@.to_set() == active_ids(self.observations@),
    {
        let mut ids = TextSet::new();
        let mut i: usize = 0;
        proof {
            assert(ids@.to_set() =~= active_ids(self.observations@.subrange(0, 0)));
        }
        while i < self.observations.len()
            invariant
                0 <= i <= self.observations@.len(),
                ids@.to_set() == active_ids(self.observations@.subrange(0, i as int)),
            decreases self.observations@.len() - i,
        {
            let state = &self.observations[i];
            let ghost before = self.observations@.subrange(0, i as int);
            let ghost after = self.observations@.subrange(0, i + 1);
            let ghost prev = ids@.to_set();
            match state.disposition {
                Disposition::Active => {
                    ids.insert(state.record.observation_id.clone());
                },
                _ => {},
            }
            proof {
                assert forall|x: Seq<char>| active_ids(after).contains(x) <==> ids@.to_set().contains(x) by {
                    if active_ids(after).contains(x) {
                        let k = choose|k: int|
                            0 <= k < after.len() && (#[trigger] after[k]).record.observation_id@ == x
                                && after[k].disposition is Active;
                        if k < i {
                            assert(before[k] == after[k]);
                            assert(active_ids(before).contains(x));
                        }
                    }
                    if prev.contains(x) {
                        let k = choose|k: int|
                            0 <= k < before.len() && (#[trigger] before[k]).record.observation_id@ == x
                                && before[k].disposition is Active;
                        assert(after[k] == before[k]);
                    }
                    if ids@.to_set().contains(x) && !prev.contains(x) {
                        assert(after[i as int] == *state);
                    }
                }
                assert(ids@.to_set() =~= active_ids(after));
            }
            i = i + 1;
        }
        proof {
            assert(self.observations@.subrange(0, self.observations@.len() as int) =~= self.observations@);
        }
        ids
    }

    /// The state of the observation with this id.
    pub fn observation(&self, id: &str) -> (found: Option<&ObservationState>)
        ensures
            match found {
                Some(state) => exists|i: int|
                    0 <= i < self.observations@.len() && self.observations@[i] == *state
                        && (#[trigger] self.observations@[i]).record.observation_id@ == id@,
                None => forall|i: int|
                    0 <= i < self.observations@.len() ==> (#[trigger] self.observations@[i]).record.observation_id@
                        != id@,
            },
    {
        match find_by_key(&self.observations, id) {
            Some(i) => Some(&self.observations[i]),
            None => None,
        }
    }

    /// The semantic conflict with this id.
    pub fn conflict(&self, id: &str) -> (found: Option<&SemanticConflict>)
        ensures
            match found {
                Some(c) => exists|i: int|
                    0 <= i < self.conflicts@.len() && self.conflicts@[i] == *c
                        && (#[trigger] self.conflicts@[i]).conflict_id@ == id@,
                None => forall|i: int|
                    0 <= i < self.conflicts@.len() ==> (#[trigger] self.conflicts@[i]).conflict_id@ != id@,
            },
    {
        match find_by_key(&self.conflicts, id) {
            Some(i) => Some(&self.conflicts[i]),
            None => None,
        }
    }
}

/// Some correction of the history performs `op` on the observation.
pub open spec fn some_applies(corr: Seq<Correction>, op: CorrectionOperation, o: Seq<char>) -> bool {
    exists|k: int| 0 <= k < corr.len() && #[trigger] applies(corr[k], op, o)
}

/// Corrections never erase their targets, and when several kinds of correction
/// target one observation its disposition follows the stable precedence
/// retracted > replaced > duplicate > active, while qualifications and the ids of
/// the corrections that target it accumulate whatever the disposition.
pub proof fn lemma_correction_precedence(rs: Seq<EvidenceRecord>, i: int)
    requires
        0 <= i < sorted_observations(rs).len(),
    ensures
        ({
            let obs = sorted_observations(rs);
            let corr = sorted_corrections(rs);
            let id = obs[i].observation_id@;
            let state = replayed_state(rs).observations[i];
            &&& state.record == obs[i]
            &&& some_applies(corr, CorrectionOperation::Retraction, id) ==> state.disposition
                == DispositionView::Retracted
            &&& !some_applies(corr, CorrectionOperation::Retraction, id) && some_applies(
                corr,
                CorrectionOperation::Replacement,
                id,
            ) ==> state.disposition is Replaced
            &&& !some_applies(corr, CorrectionOperation::Retraction, id) && !some_applies(
                corr,
                CorrectionOperation::Replacement,
                id,
            ) && some_applies(corr, CorrectionOperation::Deduplication, id) ==> (state.disposition is Duplicate
                || state.disposition is Active)
            &&& !some_applies(corr, CorrectionOperation::Retraction, id) && !some_applies(
                corr,
                CorrectionOperation::Replacement,
                id,
            ) && !some_applies(corr, CorrectionOperation::Deduplication, id) ==> state.disposition
                == DispositionView::Active
            &&& forall|q: Seq<char>|
                #[trigger] state.qualifications.contains(q) <==> exists|k: int|
                    0 <= k < corr.len() && #[trigger] applies(corr[k], CorrectionOperation::Qualification, id)
                        && corr[k].qualification->0@ == q
            &&& forall|x: Seq<char>|
                #[trigger] state.correction_ids.contains(x) <==> exists|k: int|
                    0 <= k < corr.len() && #[trigger] corr[k].targets@.contains(id) && corr[k].correction_id@ == x
        }),
{
    reveal(retracted_upto);
    reveal(replaced_upto);
    reveal(deduplicated_upto);
    reveal(qualifications_upto);
    reveal(correction_ids_upto);
}

/// The human-readable text of a replay failure.
pub open spec fn core_message_of(e: CoreError) -> Seq<char> {
    match e {
        CoreError::Schema(s) => "schema validation failed: "@ + crate::schema::schema_message_of(s@),
        CoreError::Order(o) => "ordering validation failed: "@ + crate::ordering::ordering_message_of(o),
        CoreError::DuplicateRecord(id) => "duplicate record id: "@ + id@,
        CoreError::MissingTarget { correction_id, target_id } => "correction "@ + correction_id@
            + " targets missing observation "@ + target_id@,
        CoreError::ForwardTarget { correction_id, target_id } => "correction "@ + correction_id@
            + " targets observation "@ + target_id@ + " that follows it"@,
        CoreError::MissingReplacement { correction_id, replacement_id } => "correction "@ + correction_id@
            + " names missing replacement "@ + replacement_id@,
        CoreError::ForwardReplacement { correction_id, replacement_id } => "correction "@ + correction_id@
            + " names replacement "@ + replacement_id@ + " that follows it"@,
    }
}

impl CoreError {
    /// The human-readable text of the failure.
    pub fn message(&self) -> (text: String)
        ensures
            text@ == core_message_of(*self),
    {
        match self {
            CoreError::Schema(s) => {
                let mut text = "schema validation failed: ".to_owned();
                text.append(s.message().as_str());
                text
            },
            CoreError::Order(o) => {
                let mut text = "ordering validation failed: ".to_owned();
                text.append(o.message().as_str());
                text
            },
            CoreError::DuplicateRecord(id) => {
                let mut text = "duplicate record id: ".to_owned();
                text.append(id.as_str());
                text
            },
            CoreError::MissingTarget { correction_id, target_id } => {
                let mut text = "correction ".to_owned();
                text.append(correction_id.as_str());
                text.append(" targets missing observation ");
                text.append(target_id.as_str());
                text
            },
            CoreError::ForwardTarget { correction_id, target_id } => {
                let mut text = "correction ".to_owned();
                text.append(correction_id.as_str());
                text.append(" targets observation ");
                text.append(target_id.as_str());
                text.append(" that follows it");
                text
            },
            CoreError::MissingReplacement { correction_id, replacement_id } => {
                let mut text = "correction ".to_owned();
                text.append(correction_id.as_str());
                text.append(" names missing replacement ");
                text.append(replacement_id.as_str());
                text
            },
            CoreError::ForwardReplacement { correction_id, replacement_id } => {
                let mut text = "correction ".to_owned();
                text.append(correction_id.as_str());
                text.append(" names replacement ");
                text.append(replacement_id.as_str());
                text.append(" that follows it");
                text
            },
        }
    }
}

} // verus!
