//! Time axes and the partial order of admitted records.
//!
//! Records are ordered only by explicit evidence: parentage, a shared logical clock,
//! or a shared producer stream sequence. Wall-clock timestamps never order records.
use vstd::prelude::*;

use crate::text::{compare_text, contains_text, text_equal, text_lt, texts, TextOrder, TextSet};

verus! {

/// The instant, in nanoseconds since the Unix epoch, that an RFC 3339 text denotes,
/// or `None` when the text is not RFC 3339.
pub uninterp spec fn rfc3339_instant(text: Seq<char>) -> Option<int>;

/// Calls `time::OffsetDateTime::parse` with the `Rfc3339` description and reads the
/// parsed moment's `unix_timestamp_nanos`. The result is the named `rfc3339_instant`
/// of the text; which texts parse is what the `time` crate decides.
#[verifier::external_body]
fn parse_rfc3339_nanos(text: &str) -> (nanos: Option<i128>)
    ensures
        match nanos {
            Some(n) => rfc3339_instant(text@) == Some(n as int),
            None => rfc3339_instant(text@) is None,
        },
{
    match time::OffsetDateTime::parse(text, &time::format_description::well_known::Rfc3339) {
        Ok(moment) => Some(moment.unix_timestamp_nanos()),
        Err(_) => None,
    }
}

/// An RFC 3339 timestamp preserved exactly as admitted.
#[derive(Debug, Eq, PartialEq, Ord, PartialOrd, Hash)]
pub struct Timestamp(String);

impl Clone for Timestamp {
    fn clone(&self) -> (copy: Self)
        ensures
            copy == *self,
    {
        proof {
            use_type_invariant(self);
        }
        Timestamp(self.0.clone())
    }
}

impl View for Timestamp {
    type V = Seq<char>;

    closed spec fn view(&self) -> Seq<char> {
        self.0@
    }
}

/// Timestamp validation failures.
#[derive(Clone, Debug, Eq, PartialEq)]
pub enum TimestampError {
    /// The text is not an RFC 3339 timestamp.
    InvalidRfc3339(String),
}

impl Timestamp {
    #[verifier::type_invariant]
    closed spec fn parses(self) -> bool {
        rfc3339_instant(self.0@) is Some
    }

    /// Parse and validate an RFC 3339 timestamp, keeping its text unchanged.
    pub fn parse(value: String) -> (result: Result<Timestamp, TimestampError>)
        ensures
            result is Ok <==> rfc3339_instant(value@) is Some,
            match result {
                Ok(t) => t@ == value@,
                Err(TimestampError::InvalidRfc3339(text)) => text@ == value@,
            },
    {
        match parse_rfc3339_nanos(value.as_str()) {
            Some(_) => Ok(Timestamp(value)),
            None => Err(TimestampError::InvalidRfc3339(value)),
        }
    }

    /// Return the preserved representation.
    pub fn as_str(&self) -> (text: &str)
        ensures
            text@ == self@,
    {
        self.0.as_str()
    }

    /// The instant this timestamp denotes, in nanoseconds since the Unix epoch.
    pub fn instant(&self) -> (nanos: i128)
        ensures
            rfc3339_instant(self@) == Some(nanos as int),
    {
        proof {
            use_type_invariant(self);
        }
        match parse_rfc3339_nanos(self.0.as_str()) {
            Some(n) => n,
            None => {
                proof {
                    assert(false);
                }
                0
            },
        }
    }
}

/// A named logical clock position.
#[derive(Clone, Debug, Eq, PartialEq, Ord, PartialOrd)]
pub struct LogicalTime {
    pub clock_id: String,
    pub counter: u64,
}

/// Ordering evidence for one admitted record.
#[derive(Clone, Debug, Eq, PartialEq)]
pub struct OrderingPoint {
    pub record_id: String,
    pub producer_id: String,
    pub stream_id: String,
    pub producer_sequence: Option<u64>,
    pub logical_time: Option<LogicalTime>,
    pub parents: TextSet,
    pub observed_at: Option<Timestamp>,
    pub observed_by_at: Timestamp,
    pub recorded_at: Timestamp,
}

/// A logical clock position, with its clock id as a character sequence.
pub ghost struct ClockView {
    pub clock_id: Seq<char>,
    pub counter: u64,
}

/// The ordering evidence of a point, with texts as character sequences: the
/// only fields the partial order reads.
pub ghost struct PointView {
    pub record_id: Seq<char>,
    pub producer_id: Seq<char>,
    pub stream_id: Seq<char>,
    pub producer_sequence: Option<u64>,
    pub logical_time: Option<ClockView>,
    pub parents: Seq<Seq<char>>,
}

impl View for OrderingPoint {
    type V = PointView;

    open spec fn view(&self) -> PointView {
        PointView {
            record_id: self.record_id@,
            producer_id: self.producer_id@,
            stream_id: self.stream_id@,
            producer_sequence: self.producer_sequence,
            logical_time: clock_view(self.logical_time),
            parents: self.parents@,
        }
    }
}

/// The view of an optional logical clock position.
pub open spec fn clock_view(time: Option<LogicalTime>) -> Option<ClockView> {
    match time {
        Some(t) => Some(ClockView { clock_id: t.clock_id@, counter: t.counter }),
        None => None,
    }
}

/// The ordering evidence of each point.
pub open spec fn views(pts: Seq<OrderingPoint>) -> Seq<PointView> {
    pts.map_values(|p: OrderingPoint| p@)
}

/// A relationship that deliberately permits incomparable records.
#[derive(Clone, Copy, Debug, Eq, PartialEq, Structural)]
pub enum OrderRelation {
    Before,
    After,
    Same,
    Concurrent,
    Unknown,
}

/// Deterministic partial-order construction and lookup failures.
#[derive(Clone, Debug, Eq, PartialEq)]
pub enum OrderingError {
    DuplicateRecord(String),
    DuplicateProducerPosition { first: String, second: String },
    ParentCycle(String),
    UnknownRecord(String),
}

/// Some point carries this record id.
pub open spec fn is_known(pts: Seq<PointView>, id: Seq<char>) -> bool {
    exists|i: int| 0 <= i < pts.len() && (#[trigger] pts[i]).record_id == id
}

/// The point that carries a known record id.
pub open spec fn point_of(pts: Seq<PointView>, id: Seq<char>) -> PointView {
    pts[choose|i: int| 0 <= i < pts.len() && (#[trigger] pts[i]).record_id == id]
}

/// `parent` is an explicit parent of the known record `child`.
pub open spec fn parent_of(pts: Seq<PointView>, child: Seq<char>, parent: Seq<char>) -> bool {
    exists|i: int|
        0 <= i < pts.len() && (#[trigger] pts[i]).record_id == child && pts[i].parents.contains(parent)
}

/// A chain of parent steps from `start` down to the end of `path`.
pub open spec fn is_parent_path(
    pts: Seq<PointView>,
    start: Seq<char>,
    path: Seq<Seq<char>>,
) -> bool {
    &&& path.len() > 0
    &&& parent_of(pts, start, path[0])
    &&& forall|k: int| 0 <= k < path.len() - 1 ==> parent_of(pts, #[trigger] path[k], path[k + 1])
}

/// `target` is reached from `start` by following one or more parent relations.
pub open spec fn reaches(pts: Seq<PointView>, start: Seq<char>, target: Seq<char>) -> bool {
    exists|path: Seq<Seq<char>>| #[trigger]
        is_parent_path(pts, start, path) && path.last() == target
}

/// No two points carry the same record id.
pub open spec fn ids_unique(pts: Seq<PointView>) -> bool {
    forall|i: int, j: int|
        0 <= i < j < pts.len() ==> (#[trigger] pts[i]).record_id != (#[trigger] pts[j]).record_id
}

/// Two points claim the same position of one producer stream.
pub open spec fn same_position(a: PointView, b: PointView) -> bool {
    &&& a.producer_sequence is Some
    &&& b.producer_sequence == a.producer_sequence
    &&& a.producer_id == b.producer_id
    &&& a.stream_id == b.stream_id
}

/// Point `j` repeats the id of an earlier point.
pub open spec fn repeats_id(pts: Seq<PointView>, j: int) -> bool {
    exists|k: int| 0 <= k < j && (#[trigger] pts[k]).record_id == pts[j].record_id
}

/// Point `j` repeats the producer position of an earlier point.
pub open spec fn repeats_position(pts: Seq<PointView>, j: int) -> bool {
    exists|k: int| 0 <= k < j && same_position(#[trigger] pts[k], pts[j])
}

/// Point `j` contradicts an earlier point.
pub open spec fn conflicts_at(pts: Seq<PointView>, j: int) -> bool {
    repeats_id(pts, j) || repeats_position(pts, j)
}

/// No point contradicts an earlier one.
pub open spec fn conflict_free(pts: Seq<PointView>) -> bool {
    forall|j: int| 0 <= j < pts.len() ==> !conflicts_at(pts, j)
}

/// `j` is the first point that contradicts an earlier one.
pub open spec fn first_conflict(pts: Seq<PointView>, j: int) -> bool {
    &&& 0 <= j < pts.len()
    &&& conflicts_at(pts, j)
    &&& forall|k: int| 0 <= k < j ==> !conflicts_at(pts, k)
}

/// No known record reaches itself through parentage.
pub open spec fn acyclic(pts: Seq<PointView>) -> bool {
    forall|i: int| 0 <= i < pts.len() ==> !reaches(pts, (#[trigger] pts[i]).record_id, pts[i].record_id)
}

/// How two counters of one clock or one stream order their records.
pub open spec fn counter_relation(left: u64, right: u64) -> OrderRelation {
    if left < right {
        OrderRelation::Before
    } else if left > right {
        OrderRelation::After
    } else {
        OrderRelation::Concurrent
    }
}

/// The relation of two known records: parentage, then a shared logical clock, then
/// a shared producer stream; otherwise unknown.
pub open spec fn relation_of(pts: Seq<PointView>, left: Seq<char>, right: Seq<char>) -> OrderRelation {
    let l = point_of(pts, left);
    let r = point_of(pts, right);
    if left == right {
        OrderRelation::Same
    } else if reaches(pts, right, left) {
        OrderRelation::Before
    } else if reaches(pts, left, right) {
        OrderRelation::After
    } else if l.logical_time is Some && r.logical_time is Some && l.logical_time->0.clock_id
        == r.logical_time->0.clock_id {
        counter_relation(l.logical_time->0.counter, r.logical_time->0.counter)
    } else if l.producer_id == r.producer_id && l.stream_id == r.stream_id
        && l.producer_sequence is Some && r.producer_sequence is Some {
        counter_relation(l.producer_sequence->0, r.producer_sequence->0)
    } else {
        OrderRelation::Unknown
    }
}

/// The relation read from the other side.
pub open spec fn converse(relation: OrderRelation) -> OrderRelation {
    match relation {
        OrderRelation::Before => OrderRelation::After,
        OrderRelation::After => OrderRelation::Before,
        other => other,
    }
}

pub proof fn lemma_parent_reaches(pts: Seq<PointView>, start: Seq<char>, parent: Seq<char>)
    requires
        parent_of(pts, start, parent),
    ensures
        reaches(pts, start, parent),
{
    let path = seq![parent];
    assert(is_parent_path(pts, start, path));
}

pub proof fn lemma_reaches_extend(
    pts: Seq<PointView>,
    start: Seq<char>,
    mid: Seq<char>,
    parent: Seq<char>,
)
    requires
        reaches(pts, start, mid),
        parent_of(pts, mid, parent),
    ensures
        reaches(pts, start, parent),
{
    let path = choose|path: Seq<Seq<char>>| #[trigger]
        is_parent_path(pts, start, path) && path.last() == mid;
    let longer = path.push(parent);
    assert forall|k: int| 0 <= k < longer.len() - 1 implies parent_of(
        pts,
        #[trigger] longer[k],
        longer[k + 1],
    ) by {
        if k < path.len() - 1 {
            assert(longer[k] == path[k] && longer[k + 1] == path[k + 1]);
        }
    }
    assert(is_parent_path(pts, start, longer));
}

/// Parentage is transitive.
pub proof fn lemma_reaches_transitive(
    pts: Seq<PointView>,
    a: Seq<char>,
    b: Seq<char>,
    c: Seq<char>,
)
    requires
        reaches(pts, a, b),
        reaches(pts, b, c),
    ensures
        reaches(pts, a, c),
{
    let p1 = choose|path: Seq<Seq<char>>| #[trigger] is_parent_path(pts, a, path) && path.last() == b;
    let p2 = choose|path: Seq<Seq<char>>| #[trigger] is_parent_path(pts, b, path) && path.last() == c;
    let joined = p1 + p2;
    assert forall|k: int| 0 <= k < joined.len() - 1 implies parent_of(
        pts,
        #[trigger] joined[k],
        joined[k + 1],
    ) by {
        if k < p1.len() - 1 {
            assert(joined[k] == p1[k] && joined[k + 1] == p1[k + 1]);
        } else if k == p1.len() - 1 {
            assert(joined[k] == b && joined[k + 1] == p2[0]);
        } else {
            assert(joined[k] == p2[k - p1.len()] && joined[k + 1] == p2[k - p1.len() + 1]);
        }
    }
    assert(is_parent_path(pts, a, joined));
    assert(joined.last() == c);
}

/// Finds the index of the point that carries a record id.
fn index_of(pts: &Vec<OrderingPoint>, id: &str) -> (found: Option<usize>)
    requires
        ids_unique(views(pts@)),
    ensures
        match found {
            Some(i) => i < views(pts@).len() && views(pts@)[i as int].record_id == id@ && point_of(views(pts@), id@)
                == views(pts@)[i as int],
            None => !is_known(views(pts@), id@),
        },
{
    let mut i: usize = 0;
    while i < pts.len()
        invariant
            0 <= i <= views(pts@).len(),
            ids_unique(views(pts@)),
            forall|k: int| 0 <= k < i ==> (#[trigger] views(pts@)[k]).record_id != id@,
        decreases views(pts@).len() - i,
    {
        if text_equal(pts[i].record_id.as_str(), id) {
            proof {
                let c = choose|c: int| 0 <= c < views(pts@).len() && (#[trigger] views(pts@)[c]).record_id == id@;
                if c != i {
                    if c < i {
                    } else {
                        assert(views(pts@)[i as int].record_id != views(pts@)[c].record_id);
                    }
                }
            }
            return Some(i);
        }
        i = i + 1;
    }
    None
}

/// Every name pushed while searching parentage: all parents of all points.
pub open spec fn all_parents(pts: Seq<PointView>) -> Seq<Seq<char>>
    decreases pts.len(),
{
    if pts.len() == 0 {
        Seq::empty()
    } else {
        all_parents(pts.drop_last()) + pts.last().parents
    }
}

proof fn lemma_all_parents_contains(pts: Seq<PointView>, i: int, x: Seq<char>)
    requires
        0 <= i < pts.len(),
        pts[i].parents.contains(x),
    ensures
        all_parents(pts).contains(x),
    decreases pts.len(),
{
    let rest = all_parents(pts.drop_last());
    let tail = pts.last().parents;
    assert(all_parents(pts) == rest + tail);
    if i == pts.len() - 1 {
        let k = choose|k: int| 0 <= k < tail.len() && tail[k] == x;
        assert((rest + tail)[rest.len() + k] == x);
    } else {
        assert(pts.drop_last()[i] == pts[i]);
        lemma_all_parents_contains(pts.drop_last(), i, x);
        let k = choose|k: int| 0 <= k < rest.len() && rest[k] == x;
        assert((rest + tail)[k] == x);
    }
}

/// The search loop's state: what was seen, what is still to expand.
spec fn search_state(
    pts: Seq<PointView>,
    start: Seq<char>,
    target: Seq<char>,
    seen: Seq<Seq<char>>,
    stack: Seq<Seq<char>>,
) -> bool {
    &&& seen.no_duplicates()
    &&& !seen.contains(target)
    &&& forall|x: Seq<char>| #[trigger] stack.contains(x) ==> seen.contains(x)
    &&& forall|x: Seq<char>| #[trigger] seen.contains(x) ==> reaches(pts, start, x)
    &&& forall|x: Seq<char>| #[trigger] seen.contains(x) ==> all_parents(pts).contains(x)
    &&& forall|x: Seq<char>| parent_of(pts, start, x) ==> #[trigger] seen.contains(x)
    &&& forall|x: Seq<char>, y: Seq<char>|
        #[trigger] seen.contains(x) && !stack.contains(x) && parent_of(pts, x, y) ==> #[trigger] seen.contains(y)
}

/// Pushes the parents of one point onto the search, or reports that the target is
/// among them.
fn expand(
    pts: &Vec<OrderingPoint>,
    i: usize,
    start: Ghost<Seq<char>>,
    target: &str,
    seen: &mut Vec<String>,
    stack: &mut Vec<String>,
) -> (hit: bool)
    requires
        i < views(pts@).len(),
        ids_unique(views(pts@)),
        reaches(views(pts@), start@, views(pts@)[i as int].record_id) || views(pts@)[i as int].record_id == start@,
        texts(old(seen)@).no_duplicates(),
        texts(old(stack)@).no_duplicates(),
        !texts(old(seen)@).contains(target@),
        forall|x: Seq<char>| #[trigger] texts(old(stack)@).contains(x) ==> texts(old(seen)@).contains(x),
        forall|x: Seq<char>| #[trigger] texts(old(seen)@).contains(x) ==> reaches(views(pts@), start@, x),
        forall|x: Seq<char>| #[trigger] texts(old(seen)@).contains(x) ==> all_parents(views(pts@)).contains(x),
    ensures
        hit ==> reaches(views(pts@), start@, target@),
        !hit ==> {
            &&& texts(final(seen)@).no_duplicates()
            &&& texts(final(stack)@).no_duplicates()
            &&& !texts(final(seen)@).contains(target@)
            &&& forall|x: Seq<char>| #[trigger] texts(final(stack)@).contains(x) ==> texts(final(seen)@).contains(x)
            &&& forall|x: Seq<char>| #[trigger] texts(final(seen)@).contains(x) ==> reaches(views(pts@), start@, x)
            &&& forall|x: Seq<char>| #[trigger] texts(final(seen)@).contains(x) ==> all_parents(views(pts@)).contains(x)
            &&& forall|x: Seq<char>| texts(old(seen)@).contains(x) ==> #[trigger] texts(final(seen)@).contains(x)
            &&& forall|x: Seq<char>| #[trigger] texts(final(seen)@).contains(x) && !texts(old(seen)@).contains(x) ==> texts(final(stack)@).contains(x)
            &&& forall|x: Seq<char>| texts(old(stack)@).contains(x) ==> #[trigger] texts(final(stack)@).contains(x)
            &&& forall|x: Seq<char>| #[trigger] texts(final(stack)@).contains(x) ==> texts(old(stack)@).contains(x) || !texts(old(seen)@).contains(x)
            &&& forall|y: Seq<char>| parent_of(views(pts@), views(pts@)[i as int].record_id, y) ==> #[trigger] texts(final(seen)@).contains(y)
            &&& final(seen)@.len() - old(seen)@.len() == final(stack)@.len() - old(stack)@.len()
            &&& final(seen)@.len() >= old(seen)@.len()
        },
{
    let ghost seen0 = texts(seen@);
    let ghost stack0 = texts(stack@);
    let ghost len_seen0 = seen@.len();
    let ghost len_stack0 = stack@.len();
    let ghost me = views(pts@)[i as int].record_id;
    let items = pts[i].parents.items();
    let n = items.len();
    let mut j: usize = 0;
    while j < n
        invariant
            0 <= j <= n,
            n == views(pts@)[i as int].parents.len(),
            texts(items@) == views(pts@)[i as int].parents,
            i < views(pts@).len(),
            ids_unique(views(pts@)),
            me == views(pts@)[i as int].record_id,
            reaches(views(pts@), start@, me) || me == start@,
            texts(seen@).no_duplicates(),
            texts(stack@).no_duplicates(),
            !texts(seen@).contains(target@),
            forall|x: Seq<char>| #[trigger] texts(stack@).contains(x) ==> texts(seen@).contains(x),
            forall|x: Seq<char>| #[trigger] texts(seen@).contains(x) ==> reaches(views(pts@), start@, x),
            forall|x: Seq<char>| #[trigger] texts(seen@).contains(x) ==> all_parents(views(pts@)).contains(x),
            forall|x: Seq<char>| seen0.contains(x) ==> #[trigger] texts(seen@).contains(x),
            forall|x: Seq<char>| #[trigger] texts(seen@).contains(x) && !seen0.contains(x) ==> texts(stack@).contains(x),
            forall|x: Seq<char>| stack0.contains(x) ==> #[trigger] texts(stack@).contains(x),
            forall|x: Seq<char>| #[trigger] texts(stack@).contains(x) ==> stack0.contains(x) || !seen0.contains(x),
            forall|k: int| 0 <= k < j ==> #[trigger] texts(seen@).contains(views(pts@)[i as int].parents[k]),
            seen@.len() - len_seen0 == stack@.len() - len_stack0,
            seen@.len() >= len_seen0,
        decreases n - j,
    {
        let name = &items[j];
        let ghost seen_at_start = texts(seen@);
        proof {
            assert(views(pts@)[i as int].parents[j as int] == name@);
            assert(views(pts@)[i as int].parents.contains(name@));
            assert(parent_of(views(pts@), me, name@));
            if me == start@ {
                lemma_parent_reaches(views(pts@), start@, name@);
            } else {
                lemma_reaches_extend(views(pts@), start@, me, name@);
            }
            lemma_all_parents_contains(views(pts@), i as int, name@);
        }
        if text_equal(name.as_str(), target) {
            return true;
        }
        if !contains_text(seen, name.as_str()) {
            let ghost old_seen = seen@;
            let ghost old_stack = stack@;
            seen.push(name.clone());
            stack.push(name.clone());
            proof {
                assert(texts(seen@) =~= texts(old_seen).push(name@));
                assert forall|x: Seq<char>| #[trigger] texts(seen@).contains(x) <==> (texts(old_seen).contains(x) || x == name@) by {
                    if texts(seen@).contains(x) {
                        let k = choose|k: int| 0 <= k < texts(seen@).len() && texts(seen@)[k] == x;
                        if k < old_seen.len() {
                            assert(texts(old_seen)[k] == x);
                        }
                    }
                    if texts(old_seen).contains(x) {
                        let k = choose|k: int| 0 <= k < texts(old_seen).len() && texts(old_seen)[k] == x;
                        assert(texts(seen@)[k] == x);
                    }
                    if x == name@ {
                        assert(texts(seen@)[old_seen.len() as int] == x);
                    }
                }
                assert(texts(stack@) =~= texts(old_stack).push(name@));
                assert forall|x: Seq<char>| #[trigger] texts(stack@).contains(x) <==> (texts(old_stack).contains(x) || x == name@) by {
                    if texts(stack@).contains(x) {
                        let k = choose|k: int| 0 <= k < texts(stack@).len() && texts(stack@)[k] == x;
                        if k < old_stack.len() {
                            assert(texts(old_stack)[k] == x);
                        }
                    }
                    if texts(old_stack).contains(x) {
                        let k = choose|k: int| 0 <= k < texts(old_stack).len() && texts(old_stack)[k] == x;
                        assert(texts(stack@)[k] == x);
                    }
                    if x == name@ {
                        assert(texts(stack@)[old_stack.len() as int] == x);
                    }
                }
                assert(!seen0.contains(name@));
                assert(texts(seen@) =~= texts(old_seen).push(name@));
                assert(texts(stack@) =~= texts(old_stack).push(name@));
                assert forall|x: Seq<char>| texts(seen@).contains(x) implies texts(old_seen).contains(x) || x == name@ by {
                    let k = choose|k: int| 0 <= k < texts(seen@).len() && texts(seen@)[k] == x;
                    if k < old_seen.len() {
                        assert(texts(old_seen)[k] == x);
                    }
                }
                assert forall|x: Seq<char>| texts(stack@).contains(x) implies texts(old_stack).contains(x) || x == name@ by {
                    let k = choose|k: int| 0 <= k < texts(stack@).len() && texts(stack@)[k] == x;
                    if k < old_stack.len() {
                        assert(texts(old_stack)[k] == x);
                    }
                }
                assert forall|x: Seq<char>| texts(old_seen).contains(x) implies texts(seen@).contains(x) by {
                    let k = choose|k: int| 0 <= k < texts(old_seen).len() && texts(old_seen)[k] == x;
                    assert(texts(seen@)[k] == x);
                }
                assert forall|x: Seq<char>| texts(old_stack).contains(x) implies texts(stack@).contains(x) by {
                    let k = choose|k: int| 0 <= k < texts(old_stack).len() && texts(old_stack)[k] == x;
                    assert(texts(stack@)[k] == x);
                }
                assert(texts(seen@)[old_seen.len() as int] == name@);
                assert(texts(stack@)[old_stack.len() as int] == name@);
                assert(!texts(old_stack).contains(name@));
                assert(texts(seen@).no_duplicates()) by {
                    assert forall|a: int, b: int| 0 <= a < b < texts(seen@).len() implies texts(seen@)[a] != texts(seen@)[b] by {
                        if b == old_seen.len() {
                            assert(texts(seen@)[a] == texts(old_seen)[a]);
                        } else {
                            assert(texts(seen@)[a] == texts(old_seen)[a]);
                            assert(texts(seen@)[b] == texts(old_seen)[b]);
                        }
                    }
                }
                assert(texts(stack@).no_duplicates()) by {
                    assert forall|a: int, b: int| 0 <= a < b < texts(stack@).len() implies texts(stack@)[a] != texts(stack@)[b] by {
                        if b == old_stack.len() {
                            assert(texts(stack@)[a] == texts(old_stack)[a]);
                        } else {
                            assert(texts(stack@)[a] == texts(old_stack)[a]);
                            assert(texts(stack@)[b] == texts(old_stack)[b]);
                        }
                    }
                }
                assert forall|x: Seq<char>| #[trigger] texts(stack@).contains(x) implies texts(seen@).contains(x) by {
                    if x != name@ {
                        assert(texts(old_stack).contains(x));
                        assert(texts(old_seen).contains(x));
                    }
                }
            }
        }
        assert(texts(seen@).contains(name@));
        assert(forall|x: Seq<char>| seen_at_start.contains(x) ==> #[trigger] texts(seen@).contains(x));
        proof {
            assert forall|k: int| 0 <= k < j + 1 implies #[trigger] texts(seen@).contains(
                views(pts@)[i as int].parents[k],
            ) by {
                if k == j {
                    assert(views(pts@)[i as int].parents[k] == name@);
                }
            }
        }
        j = j + 1;
    }
    proof {
        assert forall|y: Seq<char>| parent_of(views(pts@), me, y) implies #[trigger] texts(seen@).contains(y) by {
            let c = choose|c: int|
                0 <= c < views(pts@).len() && (#[trigger] views(pts@)[c]).record_id == me && views(pts@)[c].parents.contains(y);
            if c != i {
                if c < i {
                    assert(views(pts@)[c].record_id != views(pts@)[i as int].record_id);
                } else {
                    assert(views(pts@)[i as int].record_id != views(pts@)[c].record_id);
                }
            }
            let k = choose|k: int|
                0 <= k < views(pts@)[i as int].parents.len() && views(pts@)[i as int].parents[k]
                    == y;
            assert(texts(seen@).contains(views(pts@)[i as int].parents[k]));
        }
    }
    false
}

/// Decides whether `target` is reached from `start` through parentage.
fn reaches_parent(pts: &Vec<OrderingPoint>, start: &str, target: &str) -> (found: bool)
    requires
        ids_unique(views(pts@)),
    ensures
        found == reaches(views(pts@), start@, target@),
{
    let mut seen: Vec<String> = Vec::new();
    let mut stack: Vec<String> = Vec::new();
    let start_index = match index_of(pts, start) {
        Some(i) => i,
        None => {
            proof {
                if reaches(views(pts@), start@, target@) {
                    let path = choose|path: Seq<Seq<char>>| #[trigger]
                        is_parent_path(views(pts@), start@, path) && path.last() == target@;
                    let c = choose|c: int|
                        0 <= c < views(pts@).len() && (#[trigger] views(pts@)[c]).record_id == start@ && views(pts@)[c].parents.contains(path[0]);
                    assert(is_known(views(pts@), start@));
                }
            }
            return false;
        },
    };
    assert(texts(seen@) =~= Seq::<Seq<char>>::empty());
    assert(texts(stack@) =~= Seq::<Seq<char>>::empty());
    if expand(pts, start_index, Ghost(start@), target, &mut seen, &mut stack) {
        return true;
    }
    let ghost bound = all_parents(views(pts@)).to_set().len();
    proof {
        texts(seen@).unique_seq_to_set();
        vstd::set_lib::lemma_len_subset(texts(seen@).to_set(), all_parents(views(pts@)).to_set());
    }
    while stack.len() > 0
        invariant
            ids_unique(views(pts@)),
            bound == all_parents(views(pts@)).to_set().len(),
            seen@.len() <= bound,
            stack@.len() <= seen@.len(),
            search_state(views(pts@), start@, target@, texts(seen@), texts(stack@)),
            texts(stack@).no_duplicates(),
        decreases 2 * (bound - seen@.len()) + stack@.len(),
    {
        let ghost stack_before = texts(stack@);
        let ghost seen_before = texts(seen@);
        let name = stack.pop().unwrap();
        proof {
            assert(stack_before =~= texts(stack@).push(name@));
            assert(stack_before[stack_before.len() - 1] == name@);
            assert(stack_before.contains(name@));
            assert(!texts(stack@).contains(name@)) by {
                if texts(stack@).contains(name@) {
                    let k = choose|k: int| 0 <= k < texts(stack@).len() && texts(stack@)[k] == name@;
                    assert(stack_before[k] == stack_before[stack_before.len() - 1]);
                }
            }
            assert forall|x: Seq<char>| #[trigger] texts(stack@).contains(x) implies stack_before.contains(x) by {
                let k = choose|k: int| 0 <= k < texts(stack@).len() && texts(stack@)[k] == x;
                assert(stack_before[k] == x);
            }
        }
        proof {
            assert(texts(stack@).no_duplicates()) by {
                assert forall|a: int, b: int| 0 <= a < b < texts(stack@).len() implies texts(stack@)[a] != texts(stack@)[b] by {
                    assert(texts(stack@)[a] == stack_before[a]);
                    assert(texts(stack@)[b] == stack_before[b]);
                }
            }
        }
        match index_of(pts, name.as_str()) {
            Some(i) => {
                let ghost stack_mid = texts(stack@);
                if expand(pts, i, Ghost(start@), target, &mut seen, &mut stack) {
                    return true;
                }
                proof {
                    assert forall|x: Seq<char>, y: Seq<char>|
                        #[trigger] texts(seen@).contains(x) && !texts(stack@).contains(x) && parent_of(views(pts@), x, y)
                        implies #[trigger] texts(seen@).contains(y) by {
                        if x == name@ {
                        } else if seen_before.contains(x) {
                            assert(!stack_mid.contains(x));
                            if stack_before.contains(x) {
                                let k = choose|k: int| 0 <= k < stack_before.len() && stack_before[k] == x;
                                if k < stack_before.len() - 1 {
                                    assert(stack_mid[k] == x);
                                }
                            }
                        }
                    }
                    texts(seen@).unique_seq_to_set();
                    vstd::set_lib::lemma_len_subset(texts(seen@).to_set(), all_parents(views(pts@)).to_set());
                }
            },
            None => {
                proof {
                    assert forall|x: Seq<char>, y: Seq<char>|
                        #[trigger] texts(seen@).contains(x) && !texts(stack@).contains(x) && parent_of(views(pts@), x, y)
                        implies #[trigger] texts(seen@).contains(y) by {
                        if x == name@ {
                            assert(is_known(views(pts@), name@));
                        } else if stack_before.contains(x) {
                            let k = choose|k: int| 0 <= k < stack_before.len() && stack_before[k] == x;
                            if k < stack_before.len() - 1 {
                                assert(texts(stack@)[k] == x);
                            }
                        }
                    }
                    assert(texts(stack@).no_duplicates()) by {
                        assert forall|a: int, b: int| 0 <= a < b < texts(stack@).len() implies texts(stack@)[a] != texts(stack@)[b] by {
                            assert(texts(stack@)[a] == stack_before[a]);
                            assert(texts(stack@)[b] == stack_before[b]);
                        }
                    }
                }
            },
        }
    }
    proof {
        if reaches(views(pts@), start@, target@) {
            let path = choose|path: Seq<Seq<char>>| #[trigger]
                is_parent_path(views(pts@), start@, path) && path.last() == target@;
            assert forall|k: int| 0 <= k < path.len() implies #[trigger] texts(seen@).contains(path[k]) by {
                lemma_path_seen(views(pts@), start@, path, texts(seen@), k);
            }
            assert(texts(seen@).contains(path[path.len() - 1]));
        }
    }
    false
}

proof fn lemma_path_seen(
    pts: Seq<PointView>,
    start: Seq<char>,
    path: Seq<Seq<char>>,
    seen: Seq<Seq<char>>,
    k: int,
)
    requires
        is_parent_path(pts, start, path),
        0 <= k < path.len(),
        forall|x: Seq<char>| parent_of(pts, start, x) ==> #[trigger] seen.contains(x),
        forall|x: Seq<char>, y: Seq<char>| #[trigger] seen.contains(x) && parent_of(pts, x, y) ==> #[trigger] seen.contains(y),
    ensures
        seen.contains(path[k]),
    decreases k,
{
    if k > 0 {
        lemma_path_seen(pts, start, path, seen, k - 1);
        assert(parent_of(pts, path[k - 1], path[k]));
    }
}

/// `id` is the least record id, in byte order, among the records that reach
/// themselves through parentage.
pub open spec fn least_cycle_member(pts: Seq<PointView>, id: Seq<char>) -> bool {
    &&& is_known(pts, id)
    &&& reaches(pts, id, id)
    &&& forall|i: int|
        0 <= i < pts.len() && reaches(pts, (#[trigger] pts[i]).record_id, pts[i].record_id)
            ==> !text_lt(pts[i].record_id, id)
}

/// Without conflicts no two points carry one id.
pub proof fn lemma_conflict_free_ids_unique(pts: Seq<PointView>)
    requires
        conflict_free(pts),
    ensures
        ids_unique(pts),
{
    assert forall|i: int, j: int| 0 <= i < j < pts.len() implies (#[trigger] pts[i]).record_id
        != (#[trigger] pts[j]).record_id by {
        assert(!conflicts_at(pts, j));
        if pts[i].record_id == pts[j].record_id {
            assert(repeats_id(pts, j));
        }
    }
}

/// Reading a relation from the other side gives its converse: the order is
/// antisymmetric and never claims both `Before` and `After`.
pub proof fn lemma_relation_converse(pts: Seq<PointView>, a: Seq<char>, b: Seq<char>)
    requires
        conflict_free(pts),
        acyclic(pts),
        is_known(pts, a),
        is_known(pts, b),
    ensures
        relation_of(pts, a, b) == converse(relation_of(pts, b, a)),
{
    if a != b && reaches(pts, a, b) && reaches(pts, b, a) {
        lemma_reaches_transitive(pts, a, b, a);
        let i = choose|i: int| 0 <= i < pts.len() && (#[trigger] pts[i]).record_id == a;
        assert(!reaches(pts, pts[i].record_id, pts[i].record_id));
    }
}

/// Wall-clock time never orders records: points that differ only in their
/// `observed_at`, `observed_by_at` and `recorded_at` relate every pair of records
/// alike.
pub proof fn lemma_wall_clock_never_orders(
    a: Seq<OrderingPoint>,
    b: Seq<OrderingPoint>,
    left: Seq<char>,
    right: Seq<char>,
)
    requires
        a.len() == b.len(),
        forall|i: int|
            0 <= i < a.len() ==> {
                &&& (#[trigger] a[i]).record_id == b[i].record_id
                &&& a[i].producer_id == b[i].producer_id
                &&& a[i].stream_id == b[i].stream_id
                &&& a[i].producer_sequence == b[i].producer_sequence
                &&& a[i].logical_time == b[i].logical_time
                &&& a[i].parents == b[i].parents
            },
    ensures
        relation_of(views(a), left, right) == relation_of(views(b), left, right),
{
    assert(views(a) =~= views(b));
}

/// `b` holds the points of `a` rearranged: point `i` of `b` is point `perm[i]` of
/// `a`, and `inv` undoes `perm`.
pub open spec fn is_point_rearrangement(
    a: Seq<PointView>,
    b: Seq<PointView>,
    perm: Seq<int>,
    inv: Seq<int>,
) -> bool {
    &&& a.len() == b.len()
    &&& perm.len() == b.len()
    &&& inv.len() == a.len()
    &&& forall|i: int|
        0 <= i < b.len() ==> 0 <= #[trigger] perm[i] < a.len() && b[i] == a[perm[i]] && inv[perm[i]] == i
    &&& forall|j: int| 0 <= j < a.len() ==> 0 <= #[trigger] inv[j] < b.len() && perm[inv[j]] == j
}

proof fn lemma_point_rearrangement_symmetric(a: Seq<PointView>, b: Seq<PointView>, perm: Seq<int>, inv: Seq<int>)
    requires
        is_point_rearrangement(a, b, perm, inv),
    ensures
        is_point_rearrangement(b, a, inv, perm),
{
    assert forall|j: int| 0 <= j < a.len() implies a[j] == b[#[trigger] inv[j]] by {
        assert(b[inv[j]] == a[perm[inv[j]]]);
    }
}

/// Rearranging points keeps the known records and their explicit parents.
proof fn lemma_rearranged_parentage(a: Seq<PointView>, b: Seq<PointView>, perm: Seq<int>, inv: Seq<int>)
    requires
        is_point_rearrangement(a, b, perm, inv),
    ensures
        forall|id: Seq<char>| #[trigger] is_known(a, id) ==> is_known(b, id),
        forall|c: Seq<char>, q: Seq<char>| #[trigger] parent_of(a, c, q) ==> parent_of(b, c, q),
{
    assert forall|id: Seq<char>| #[trigger] is_known(a, id) implies is_known(b, id) by {
        let i = choose|i: int| 0 <= i < a.len() && (#[trigger] a[i]).record_id == id;
        assert(b[inv[i]] == a[perm[inv[i]]]);
    }
    assert forall|c: Seq<char>, q: Seq<char>| #[trigger] parent_of(a, c, q) implies parent_of(b, c, q) by {
        let i = choose|i: int| 0 <= i < a.len() && (#[trigger] a[i]).record_id == c && a[i].parents.contains(q);
        assert(b[inv[i]] == a[perm[inv[i]]]);
    }
}

/// No two points carry one id or claim one producer position.
proof fn lemma_conflict_free_pairwise(p: Seq<PointView>)
    ensures
        conflict_free(p) <==> forall|i: int, j: int|
            0 <= i < p.len() && 0 <= j < p.len() && i != j ==> (#[trigger] p[i]).record_id != (#[trigger] p[j]).record_id
                && !same_position(p[i], p[j]),
{
    if conflict_free(p) {
        assert forall|i: int, j: int| 0 <= i < p.len() && 0 <= j < p.len() && i != j implies (#[trigger] p[i]).record_id
            != (#[trigger] p[j]).record_id && !same_position(p[i], p[j]) by {
            if i < j {
                assert(!conflicts_at(p, j));
                if p[i].record_id == p[j].record_id {
                    assert(repeats_id(p, j));
                }
                if same_position(p[i], p[j]) {
                    assert(repeats_position(p, j));
                }
            } else {
                assert(!conflicts_at(p, i));
                if p[i].record_id == p[j].record_id {
                    assert(repeats_id(p, i));
                }
                if same_position(p[i], p[j]) {
                    assert(same_position(p[j], p[i]));
                    assert(repeats_position(p, i));
                }
            }
        }
    }
    if forall|i: int, j: int|
        0 <= i < p.len() && 0 <= j < p.len() && i != j ==> (#[trigger] p[i]).record_id != (#[trigger] p[j]).record_id
            && !same_position(p[i], p[j]) {
        assert forall|j: int| 0 <= j < p.len() implies !conflicts_at(p, j) by {
            if repeats_id(p, j) {
                let k = choose|k: int| 0 <= k < j && (#[trigger] p[k]).record_id == p[j].record_id;
                assert(p[k].record_id != p[j].record_id);
            }
            if repeats_position(p, j) {
                let k = choose|k: int| 0 <= k < j && same_position(#[trigger] p[k], p[j]);
                assert(!same_position(p[k], p[j]));
            }
        }
    }
}

/// With unique ids, the point of a known record is the one that carries its id.
proof fn lemma_point_of_unique(p: Seq<PointView>, i: int)
    requires
        ids_unique(p),
        0 <= i < p.len(),
    ensures
        point_of(p, p[i].record_id) == p[i],
{
    let c = choose|c: int| 0 <= c < p.len() && (#[trigger] p[c]).record_id == p[i].record_id;
    if c != i {
        if c < i {
            assert(p[c].record_id != p[i].record_id);
        } else {
            assert(p[i].record_id != p[c].record_id);
        }
    }
}

/// The order in which points are handed to construction cannot affect the index:
/// a rearrangement is accepted exactly when the given points are, knows the same
/// records with the same parentage, reports a cycle by the same record, and once
/// accepted relates every pair of known records alike.
pub proof fn lemma_ordering_order_independent(a: Seq<PointView>, b: Seq<PointView>, perm: Seq<int>, inv: Seq<int>)
    requires
        is_point_rearrangement(a, b, perm, inv),
    ensures
        conflict_free(a) == conflict_free(b),
        acyclic(a) == acyclic(b),
        forall|id: Seq<char>| #[trigger] is_known(a, id) == is_known(b, id),
        forall|s: Seq<char>, t: Seq<char>| #[trigger] reaches(a, s, t) == reaches(b, s, t),
        forall|id: Seq<char>| #[trigger] least_cycle_member(a, id) == least_cycle_member(b, id),
        conflict_free(a) ==> forall|l: Seq<char>, r: Seq<char>|
            is_known(a, l) && is_known(a, r) ==> #[trigger] relation_of(a, l, r) == relation_of(b, l, r),
{
    lemma_point_rearrangement_symmetric(a, b, perm, inv);
    lemma_rearranged_parentage(a, b, perm, inv);
    lemma_rearranged_parentage(b, a, inv, perm);
    assert forall|s: Seq<char>, t: Seq<char>| #[trigger] reaches(a, s, t) == reaches(b, s, t) by {
        assert forall|path: Seq<Seq<char>>| #[trigger] is_parent_path(a, s, path) == is_parent_path(b, s, path) by {
            if is_parent_path(a, s, path) {
                assert forall|k: int| 0 <= k < path.len() - 1 implies parent_of(b, #[trigger] path[k], path[k + 1]) by {
                    assert(parent_of(a, path[k], path[k + 1]));
                }
            }
            if is_parent_path(b, s, path) {
                assert forall|k: int| 0 <= k < path.len() - 1 implies parent_of(a, #[trigger] path[k], path[k + 1]) by {
                    assert(parent_of(b, path[k], path[k + 1]));
                }
            }
        }
        if reaches(a, s, t) {
            let path = choose|path: Seq<Seq<char>>| #[trigger] is_parent_path(a, s, path) && path.last() == t;
            assert(is_parent_path(b, s, path));
        }
        if reaches(b, s, t) {
            let path = choose|path: Seq<Seq<char>>| #[trigger] is_parent_path(b, s, path) && path.last() == t;
            assert(is_parent_path(a, s, path));
        }
    }
    assert forall|id: Seq<char>| #[trigger] is_known(a, id) == is_known(b, id) by {}
    assert(acyclic(a) == acyclic(b)) by {
        if acyclic(a) {
            assert forall|i: int| 0 <= i < b.len() implies !reaches(b, (#[trigger] b[i]).record_id, b[i].record_id) by {
                assert(b[i] == a[perm[i]]);
                assert(!reaches(a, a[perm[i]].record_id, a[perm[i]].record_id));
            }
        }
        if acyclic(b) {
            assert forall|i: int| 0 <= i < a.len() implies !reaches(a, (#[trigger] a[i]).record_id, a[i].record_id) by {
                assert(a[i] == b[inv[i]]);
                assert(!reaches(b, b[inv[i]].record_id, b[inv[i]].record_id));
            }
        }
    }
    lemma_conflict_free_pairwise(a);
    lemma_conflict_free_pairwise(b);
    assert(conflict_free(a) == conflict_free(b)) by {
        if conflict_free(a) {
            assert forall|i: int, j: int| 0 <= i < b.len() && 0 <= j < b.len() && i != j implies (#[trigger] b[i]).record_id
                != (#[trigger] b[j]).record_id && !same_position(b[i], b[j]) by {
                assert(b[i] == a[perm[i]] && b[j] == a[perm[j]]);
                assert(perm[i] != perm[j]);
            }
        }
        if conflict_free(b) {
            assert forall|i: int, j: int| 0 <= i < a.len() && 0 <= j < a.len() && i != j implies (#[trigger] a[i]).record_id
                != (#[trigger] a[j]).record_id && !same_position(a[i], a[j]) by {
                assert(a[i] == b[inv[i]] && a[j] == b[inv[j]]);
                assert(inv[i] != inv[j]);
            }
        }
    }
    assert forall|id: Seq<char>| #[trigger] least_cycle_member(a, id) == least_cycle_member(b, id) by {
        if least_cycle_member(a, id) {
            assert forall|i: int| 0 <= i < b.len() && reaches(b, (#[trigger] b[i]).record_id, b[i].record_id) implies !text_lt(
                b[i].record_id,
                id,
            ) by {
                assert(b[i] == a[perm[i]]);
                assert(reaches(a, a[perm[i]].record_id, a[perm[i]].record_id));
            }
        }
        if least_cycle_member(b, id) {
            assert forall|i: int| 0 <= i < a.len() && reaches(a, (#[trigger] a[i]).record_id, a[i].record_id) implies !text_lt(
                a[i].record_id,
                id,
            ) by {
                assert(a[i] == b[inv[i]]);
                assert(reaches(b, b[inv[i]].record_id, b[inv[i]].record_id));
            }
        }
    }
    if conflict_free(a) {
        lemma_conflict_free_ids_unique(a);
        lemma_conflict_free_ids_unique(b);
        assert forall|l: Seq<char>, r: Seq<char>| is_known(a, l) && is_known(a, r) implies #[trigger] relation_of(a, l, r)
            == relation_of(b, l, r) by {
            let il = choose|i: int| 0 <= i < a.len() && (#[trigger] a[i]).record_id == l;
            let ir = choose|i: int| 0 <= i < a.len() && (#[trigger] a[i]).record_id == r;
            lemma_point_of_unique(a, il);
            lemma_point_of_unique(a, ir);
            assert(b[inv[il]] == a[il] && b[inv[ir]] == a[ir]);
            lemma_point_of_unique(b, inv[il]);
            lemma_point_of_unique(b, inv[ir]);
        }
    }
}

/// A producer position is the triple of producer, stream and sequence: a refused
/// position names two points that agree on all three, and points whose triples
/// all differ (or that carry no sequence), with distinct ids, never conflict,
/// even when one producer uses one sequence number on two streams.
pub proof fn lemma_position_is_producer_stream_sequence(pts: Seq<PointView>, first: String, second: String)
    ensures
        describes_ordering_failure(pts, OrderingError::DuplicateProducerPosition { first, second })
            ==> exists|k: int, j: int|
            0 <= k < j < pts.len() && (#[trigger] pts[k]).record_id == first@ && (#[trigger] pts[j]).record_id
                == second@ && pts[k].producer_id == pts[j].producer_id && pts[k].stream_id == pts[j].stream_id
                && pts[k].producer_sequence is Some && pts[k].producer_sequence == pts[j].producer_sequence,
        (forall|i: int, j: int|
            0 <= i < pts.len() && 0 <= j < pts.len() && i != j ==> {
                &&& (#[trigger] pts[i]).record_id != (#[trigger] pts[j]).record_id
                &&& !(pts[i].producer_sequence is Some && pts[i].producer_sequence == pts[j].producer_sequence
                    && pts[i].producer_id == pts[j].producer_id && pts[i].stream_id == pts[j].stream_id)
            }) ==> conflict_free(pts),
{
    if describes_ordering_failure(pts, OrderingError::DuplicateProducerPosition { first, second }) {
        let (j, k) = choose|j: int, k: int|
            first_conflict(pts, j) && !repeats_id(pts, j) && 0 <= k < j && same_position(
                #[trigger] pts[k],
                #[trigger] pts[j],
            ) && first@ == pts[k].record_id && second@ == pts[j].record_id;
        assert(pts[k].record_id == first@ && pts[j].record_id == second@);
    }
    lemma_conflict_free_pairwise(pts);
}

/// Two distinct records are ordered only by evidence they share: a parentage path,
/// one logical clock, or one producer stream (same producer and same stream). With
/// none of these the relation is `Unknown`, whatever their sequence numbers; a
/// `Before` answer always rests on one of them.
pub proof fn lemma_relation_rests_on_shared_evidence(pts: Seq<PointView>, i: int, j: int)
    requires
        conflict_free(pts),
        0 <= i < pts.len(),
        0 <= j < pts.len(),
        i != j,
    ensures
        ({
            let l = pts[i];
            let r = pts[j];
            let shared_clock = l.logical_time is Some && r.logical_time is Some && l.logical_time->0.clock_id
                == r.logical_time->0.clock_id;
            let shared_stream = l.producer_id == r.producer_id && l.stream_id == r.stream_id
                && l.producer_sequence is Some && r.producer_sequence is Some;
            let rel = relation_of(pts, l.record_id, r.record_id);
            &&& !reaches(pts, l.record_id, r.record_id) && !reaches(pts, r.record_id, l.record_id)
                && !shared_clock && !shared_stream ==> rel == OrderRelation::Unknown
            &&& rel == OrderRelation::Before ==> reaches(pts, r.record_id, l.record_id) || (shared_clock
                && l.logical_time->0.counter < r.logical_time->0.counter) || (shared_stream
                && l.producer_sequence->0 < r.producer_sequence->0)
            &&& rel == OrderRelation::After ==> reaches(pts, l.record_id, r.record_id) || (shared_clock
                && l.logical_time->0.counter > r.logical_time->0.counter) || (shared_stream
                && l.producer_sequence->0 > r.producer_sequence->0)
        }),
{
    lemma_conflict_free_ids_unique(pts);
    lemma_point_of_unique(pts, i);
    lemma_point_of_unique(pts, j);
    if i < j {
        assert(pts[i].record_id != pts[j].record_id);
    } else {
        assert(pts[j].record_id != pts[i].record_id);
    }
}

/// `error` is what construction reports for these points: the first point, in
/// order, that repeats an earlier record id or producer position, or else the least
/// record id on a parent cycle.
pub open spec fn describes_ordering_failure(pts: Seq<PointView>, error: OrderingError) -> bool {
    match error {
        OrderingError::DuplicateRecord(id) => exists|j: int|
            first_conflict(pts, j) && repeats_id(pts, j) && id@ == #[trigger] pts[j].record_id,
        OrderingError::DuplicateProducerPosition { first, second } => exists|j: int, k: int|
            first_conflict(pts, j) && !repeats_id(pts, j) && 0 <= k < j && same_position(
                #[trigger] pts[k],
                #[trigger] pts[j],
            ) && first@ == pts[k].record_id && second@ == pts[j].record_id,
        OrderingError::ParentCycle(id) => conflict_free(pts) && least_cycle_member(pts, id@),
        OrderingError::UnknownRecord(_) => false,
    }
}

/// A validated set of ordering points.
#[derive(Debug)]
pub struct PartialOrder {
    points: Vec<OrderingPoint>,
}

impl View for PartialOrder {
    type V = Seq<PointView>;

    closed spec fn view(&self) -> Seq<PointView> {
        views(self.points@)
    }
}

impl PartialOrder {
    #[verifier::type_invariant]
    closed spec fn well_formed(self) -> bool {
        &&& conflict_free(views(self.points@))
        &&& acyclic(views(self.points@))
    }

    /// Construct an ordering index and reject contradictory identities and parent
    /// cycles. The first point, in input order, that repeats an earlier record id or
    /// producer position is reported; otherwise the least record id on a cycle.
    pub fn new(points: Vec<OrderingPoint>) -> (result: Result<PartialOrder, OrderingError>)
        ensures
            result is Ok <==> conflict_free(views(points@)) && acyclic(views(points@)),
            match result {
                Ok(order) => order@ == views(points@),
                Err(e) => describes_ordering_failure(views(points@), e),
            },
    {
        let n = points.len();
        let mut j: usize = 0;
        while j < n
            invariant
                0 <= j <= n,
                n == views(points@).len(),
                forall|k: int| 0 <= k < j ==> !conflicts_at(views(points@), k),
            decreases n - j,
        {
            let mut k: usize = 0;
            while k < j
                invariant
                    0 <= k <= j < n,
                    n == views(points@).len(),
                    forall|m: int| 0 <= m < j ==> !conflicts_at(views(points@), m),
                    forall|m: int| 0 <= m < k ==> (#[trigger] views(points@)[m]).record_id != views(points@)[j as int].record_id,
                decreases j - k,
            {
                if text_equal(points[k].record_id.as_str(), points[j].record_id.as_str()) {
                    proof {
                        assert(views(points@)[k as int].record_id == views(points@)[j as int].record_id);
                        assert(repeats_id(views(points@), j as int));
                        assert(first_conflict(views(points@), j as int));
                    }
                    return Err(OrderingError::DuplicateRecord(points[j].record_id.clone()));
                }
                k = k + 1;
            }
            assert(!repeats_id(views(points@), j as int));
            if points[j].producer_sequence.is_some() {
                let mut k: usize = 0;
                while k < j
                    invariant
                        0 <= k <= j < n,
                        n == views(points@).len(),
                        forall|m: int| 0 <= m < j ==> !conflicts_at(views(points@), m),
                        !repeats_id(views(points@), j as int),
                        views(points@)[j as int].producer_sequence is Some,
                        forall|m: int| 0 <= m < k ==> !same_position(#[trigger] views(points@)[m], views(points@)[j as int]),
                    decreases j - k,
                {
                    let same = match (points[k].producer_sequence, points[j].producer_sequence) {
                        (Some(a), Some(b)) => a == b,
                        _ => false,
                    };
                    if same && text_equal(points[k].producer_id.as_str(), points[j].producer_id.as_str())
                        && text_equal(points[k].stream_id.as_str(), points[j].stream_id.as_str()) {
                        proof {
                            assert(same_position(views(points@)[k as int], views(points@)[j as int]));
                            assert(repeats_position(views(points@), j as int));
                            assert(first_conflict(views(points@), j as int));
                        }
                        return Err(
                            OrderingError::DuplicateProducerPosition {
                                first: points[k].record_id.clone(),
                                second: points[j].record_id.clone(),
                            },
                        );
                    }
                    k = k + 1;
                }
            }
            assert(!repeats_position(views(points@), j as int));
            j = j + 1;
        }
        proof {
            lemma_conflict_free_ids_unique(views(points@));
        }
        let mut best: Option<usize> = None;
        let mut i: usize = 0;
        while i < n
            invariant
                0 <= i <= n,
                n == views(points@).len(),
                ids_unique(views(points@)),
                match best {
                    Some(b) => b < i && reaches(views(points@), views(points@)[b as int].record_id, views(points@)[b as int].record_id)
                        && forall|m: int| 0 <= m < i && reaches(views(points@), (#[trigger] views(points@)[m]).record_id, views(points@)[m].record_id)
                            ==> !text_lt(views(points@)[m].record_id, views(points@)[b as int].record_id),
                    None => forall|m: int| 0 <= m < i ==> !reaches(views(points@), (#[trigger] views(points@)[m]).record_id, views(points@)[m].record_id),
                },
            decreases n - i,
        {
            if reaches_parent(&points, points[i].record_id.as_str(), points[i].record_id.as_str()) {
                match best {
                    None => {
                        best = Some(i);
                        proof {
                            crate::text::lemma_text_lt_irreflexive(views(points@)[i as int].record_id);
                        }
                    },
                    Some(b) => {
                        if compare_text(points[i].record_id.as_str(), points[b].record_id.as_str()) == TextOrder::Less {
                            proof {
                                assert forall|m: int| 0 <= m < i + 1 && reaches(views(points@), (#[trigger] views(points@)[m]).record_id, views(points@)[m].record_id)
                                    implies !text_lt(views(points@)[m].record_id, views(points@)[i as int].record_id) by {
                                    crate::text::lemma_text_lt_irreflexive(views(points@)[i as int].record_id);
                                    if m < i && text_lt(views(points@)[m].record_id, views(points@)[i as int].record_id) {
                                        crate::text::lemma_text_lt_transitive(views(points@)[m].record_id, views(points@)[i as int].record_id, views(points@)[b as int].record_id);
                                    }
                                }
                            }
                            best = Some(i);
                        } else {
                            proof {
                                crate::text::lemma_text_lt_total(views(points@)[i as int].record_id, views(points@)[b as int].record_id);
                                crate::text::lemma_text_lt_asymmetric(views(points@)[i as int].record_id, views(points@)[b as int].record_id);
                            }
                        }
                    },
                }
            }
            i = i + 1;
        }
        match best {
            Some(b) => {
                let id = points[b].record_id.clone();
                proof {
                    assert(is_known(views(points@), id@));
                }
                Err(OrderingError::ParentCycle(id))
            },
            None => Ok(PartialOrder { points }),
        }
    }

    /// Compare two known records using parentage, logical time, then producer
    /// position; records without such evidence are `Unknown`.
    pub fn relation(&self, left_id: &str, right_id: &str) -> (result: Result<OrderRelation, OrderingError>)
        ensures
            match result {
                Ok(relation) => is_known(self@, left_id@) && is_known(self@, right_id@)
                    && relation == relation_of(self@, left_id@, right_id@),
                Err(OrderingError::UnknownRecord(id)) => (!is_known(self@, left_id@) && id@
                    == left_id@) || (is_known(self@, left_id@) && !is_known(self@, right_id@)
                    && id@ == right_id@),
                Err(_) => false,
            },
    {
        proof {
            use_type_invariant(self);
            lemma_conflict_free_ids_unique(views(self.points@));
        }
        let li = match index_of(&self.points, left_id) {
            Some(i) => i,
            None => {
                return Err(OrderingError::UnknownRecord(left_id.to_owned()));
            },
        };
        let ri = match index_of(&self.points, right_id) {
            Some(i) => i,
            None => {
                return Err(OrderingError::UnknownRecord(right_id.to_owned()));
            },
        };
        if text_equal(left_id, right_id) {
            return Ok(OrderRelation::Same);
        }
        if reaches_parent(&self.points, right_id, left_id) {
            return Ok(OrderRelation::Before);
        }
        if reaches_parent(&self.points, left_id, right_id) {
            return Ok(OrderRelation::After);
        }
        let left = &self.points[li];
        let right = &self.points[ri];
        match (&left.logical_time, &right.logical_time) {
            (Some(lt), Some(rt)) => {
                if text_equal(lt.clock_id.as_str(), rt.clock_id.as_str()) {
                    return Ok(counter_order(lt.counter, rt.counter));
                }
            },
            _ => {},
        }
        if text_equal(left.producer_id.as_str(), right.producer_id.as_str()) && text_equal(
            left.stream_id.as_str(),
            right.stream_id.as_str(),
        ) {
            match (left.producer_sequence, right.producer_sequence) {
                (Some(ls), Some(rs)) => {
                    return Ok(counter_order(ls, rs));
                },
                _ => {},
            }
        }
        Ok(OrderRelation::Unknown)
    }
}

/// A copy of a point that keeps its ordering evidence.
fn copy_point(p: &OrderingPoint) -> (copy: OrderingPoint)
    ensures
        copy@ == p@,
{
    let logical_time = match &p.logical_time {
        Some(t) => Some(LogicalTime { clock_id: t.clock_id.clone(), counter: t.counter }),
        None => None,
    };
    let observed_at = match &p.observed_at {
        Some(t) => Some(t.clone()),
        None => None,
    };
    OrderingPoint {
        record_id: p.record_id.clone(),
        producer_id: p.producer_id.clone(),
        stream_id: p.stream_id.clone(),
        producer_sequence: p.producer_sequence,
        logical_time,
        parents: p.parents.clone(),
        observed_at,
        observed_by_at: p.observed_by_at.clone(),
        recorded_at: p.recorded_at.clone(),
    }
}

impl Clone for PartialOrder {
    fn clone(&self) -> (copy: Self)
        ensures
            copy@ == self@,
    {
        proof {
            use_type_invariant(self);
        }
        let mut points: Vec<OrderingPoint> = Vec::new();
        let mut i: usize = 0;
        while i < self.points.len()
            invariant
                0 <= i <= self.points@.len(),
                points@.len() == i,
                views(points@) == views(self.points@).subrange(0, i as int),
            decreases self.points@.len() - i,
        {
            let ghost before = points@;
            let q = copy_point(&self.points[i]);
            points.push(q);
            proof {
                assert(points@ == before.push(q));
                assert forall|k: int| 0 <= k < i + 1 implies views(points@)[k] == views(self.points@)[k] by {
                    assert(views(points@)[k] == points@[k]@);
                    assert(views(self.points@)[k] == self.points@[k]@);
                    if k < i {
                        assert(views(before)[k] == views(self.points@).subrange(0, i as int)[k]);
                        assert(views(before)[k] == before[k]@);
                    } else {
                        assert(points@[k] == q);
                    }
                }
            }
            assert(views(points@) =~= views(self.points@).subrange(0, i + 1));
            i = i + 1;
        }
        assert(views(points@) =~= views(self.points@));
        PartialOrder { points }
    }
}

fn counter_order(left: u64, right: u64) -> (relation: OrderRelation)
    ensures
        relation == counter_relation(left, right),
{
    if left < right {
        OrderRelation::Before
    } else if left > right {
        OrderRelation::After
    } else {
        OrderRelation::Concurrent
    }
}

/// The human-readable text of an ordering failure.
pub open spec fn ordering_message_of(e: OrderingError) -> Seq<char> {
    match e {
        OrderingError::DuplicateRecord(id) => "duplicate record id: "@ + id@,
        OrderingError::DuplicateProducerPosition { first, second } => "records "@ + first@ + " and "@ + second@
            + " have the same producer position"@,
        OrderingError::ParentCycle(id) => "parent relation cycle contains record: "@ + id@,
        OrderingError::UnknownRecord(id) => "unknown record id: "@ + id@,
    }
}

impl OrderingError {
    /// The human-readable text of the failure.
    pub fn message(&self) -> (text: String)
        ensures
            text@ == ordering_message_of(*self),
    {
        match self {
            OrderingError::DuplicateRecord(id) => {
                let mut text = "duplicate record id: ".to_owned();
                text.append(id.as_str());
                text
            },
            OrderingError::DuplicateProducerPosition { first, second } => {
                let mut text = "records ".to_owned();
                text.append(first.as_str());
                text.append(" and ");
                text.append(second.as_str());
                text.append(" have the same producer position");
                text
            },
            OrderingError::ParentCycle(id) => {
                let mut text = "parent relation cycle contains record: ".to_owned();
                text.append(id.as_str());
                text
            },
            OrderingError::UnknownRecord(id) => {
                let mut text = "unknown record id: ".to_owned();
                text.append(id.as_str());
                text
            },
        }
    }
}

} // verus!
