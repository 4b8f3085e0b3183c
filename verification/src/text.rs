//! Byte-level text primitives: the canonical byte order of identifiers, the
//! identifier and label grammars of the evidence contracts, and sorted text sets.
use vstd::prelude::*;
use vstd::utf8::*;

verus! {

/// The UTF-8 bytes of a text value, which is how `str` orders and measures itself.
pub open spec fn text_bytes(s: Seq<char>) -> Seq<u8> {
    encode_utf8(s)
}

/// Strict lexicographic order on byte sequences (the order of `[u8]` and `str`).
pub open spec fn bytes_lt(a: Seq<u8>, b: Seq<u8>) -> bool
    decreases a.len(),
{
    if a.len() == 0 {
        b.len() > 0
    } else if b.len() == 0 {
        false
    } else if a[0] < b[0] {
        true
    } else if a[0] > b[0] {
        false
    } else {
        bytes_lt(a.drop_first(), b.drop_first())
    }
}

/// Strict order of text values by their UTF-8 bytes (the order of `String`).
pub open spec fn text_lt(a: Seq<char>, b: Seq<char>) -> bool {
    bytes_lt(text_bytes(a), text_bytes(b))
}

pub proof fn lemma_bytes_lt_irreflexive(a: Seq<u8>)
    ensures
        !bytes_lt(a, a),
    decreases a.len(),
{
    if a.len() > 0 {
        lemma_bytes_lt_irreflexive(a.drop_first());
    }
}

pub proof fn lemma_bytes_lt_asymmetric(a: Seq<u8>, b: Seq<u8>)
    ensures
        !(bytes_lt(a, b) && bytes_lt(b, a)),
    decreases a.len(),
{
    if a.len() > 0 && b.len() > 0 && a[0] == b[0] {
        lemma_bytes_lt_asymmetric(a.drop_first(), b.drop_first());
    }
}

pub proof fn lemma_bytes_lt_transitive(a: Seq<u8>, b: Seq<u8>, c: Seq<u8>)
    requires
        bytes_lt(a, b),
        bytes_lt(b, c),
    ensures
        bytes_lt(a, c),
    decreases a.len(),
{
    if a.len() > 0 && b.len() > 0 && c.len() > 0 && a[0] == b[0] && b[0] == c[0] {
        lemma_bytes_lt_transitive(a.drop_first(), b.drop_first(), c.drop_first());
    }
}

pub proof fn lemma_bytes_lt_total(a: Seq<u8>, b: Seq<u8>)
    ensures
        a == b || bytes_lt(a, b) || bytes_lt(b, a),
    decreases a.len(),
{
    if a.len() > 0 && b.len() > 0 && a[0] == b[0] {
        lemma_bytes_lt_total(a.drop_first(), b.drop_first());
        if a.drop_first() == b.drop_first() {
            assert(a =~= seq![a[0]] + a.drop_first());
            assert(b =~= seq![b[0]] + b.drop_first());
        }
    } else if a.len() == 0 && b.len() == 0 {
        assert(a =~= b);
    }
}

/// Distinct text values have distinct UTF-8 encodings.
pub proof fn lemma_text_bytes_injective(a: Seq<char>, b: Seq<char>)
    requires
        text_bytes(a) == text_bytes(b),
    ensures
        a == b,
{
    encode_utf8_decode_utf8(a);
    encode_utf8_decode_utf8(b);
}

pub proof fn lemma_text_lt_irreflexive(a: Seq<char>)
    ensures
        !text_lt(a, a),
{
    lemma_bytes_lt_irreflexive(text_bytes(a));
}

pub proof fn lemma_text_lt_asymmetric(a: Seq<char>, b: Seq<char>)
    ensures
        !(text_lt(a, b) && text_lt(b, a)),
{
    lemma_bytes_lt_asymmetric(text_bytes(a), text_bytes(b));
}

pub proof fn lemma_text_lt_transitive(a: Seq<char>, b: Seq<char>, c: Seq<char>)
    requires
        text_lt(a, b),
        text_lt(b, c),
    ensures
        text_lt(a, c),
{
    lemma_bytes_lt_transitive(text_bytes(a), text_bytes(b), text_bytes(c));
}

pub proof fn lemma_text_lt_total(a: Seq<char>, b: Seq<char>)
    ensures
        a == b || text_lt(a, b) || text_lt(b, a),
{
    lemma_bytes_lt_total(text_bytes(a), text_bytes(b));
    if text_bytes(a) == text_bytes(b) {
        lemma_text_bytes_injective(a, b);
    }
}

/// The three outcomes of comparing two text values by their bytes.
#[derive(Clone, Copy, Debug, PartialEq, Eq, Structural)]
pub enum TextOrder {
    Less,
    Equal,
    Greater,
}

/// Compares two byte slices lexicographically.
pub fn compare_bytes(a: &[u8], b: &[u8]) -> (order: TextOrder)
    ensures
        order == TextOrder::Less <==> bytes_lt(a@, b@),
        order == TextOrder::Equal <==> a@ == b@,
        order == TextOrder::Greater <==> bytes_lt(b@, a@),
{
    let mut i: usize = 0;
    assert(a@.skip(0) =~= a@);
    assert(b@.skip(0) =~= b@);
    while i < a.len() && i < b.len() && a[i] == b[i]
        invariant
            i <= a@.len(),
            i <= b@.len(),
            a@.subrange(0, i as int) == b@.subrange(0, i as int),
            bytes_lt(a@, b@) == bytes_lt(a@.skip(i as int), b@.skip(i as int)),
            bytes_lt(b@, a@) == bytes_lt(b@.skip(i as int), a@.skip(i as int)),
        decreases a@.len() - i,
    {
        assert(a@.skip(i as int).drop_first() =~= a@.skip(i + 1));
        assert(b@.skip(i as int).drop_first() =~= b@.skip(i + 1));
        assert(a@.subrange(0, i + 1) =~= a@.subrange(0, i as int).push(a@[i as int]));
        assert(b@.subrange(0, i + 1) =~= b@.subrange(0, i as int).push(b@[i as int]));
        i = i + 1;
    }
    proof {
        lemma_bytes_lt_asymmetric(a@, b@);
        lemma_bytes_lt_irreflexive(a@);
    }
    if i == a.len() && i == b.len() {
        assert(a@ =~= a@.subrange(0, i as int));
        assert(b@ =~= b@.subrange(0, i as int));
        TextOrder::Equal
    } else if i == a.len() {
        assert(a@.skip(i as int).len() == 0);
        proof {
            if a@ == b@ {
                assert(false);
            }
        }
        TextOrder::Less
    } else if i == b.len() {
        assert(b@.skip(i as int).len() == 0);
        proof {
            if a@ == b@ {
                assert(false);
            }
        }
        TextOrder::Greater
    } else if a[i] < b[i] {
        assert(a@.skip(i as int)[0] == a@[i as int]);
        assert(b@.skip(i as int)[0] == b@[i as int]);
        proof {
            if a@ == b@ {
                assert(false);
            }
        }
        TextOrder::Less
    } else {
        assert(a@.skip(i as int)[0] == a@[i as int]);
        assert(b@.skip(i as int)[0] == b@[i as int]);
        proof {
            if a@ == b@ {
                assert(false);
            }
        }
        TextOrder::Greater
    }
}

/// Compares two text values by their UTF-8 bytes, the order of `str`.
pub fn compare_text(a: &str, b: &str) -> (order: TextOrder)
    ensures
        order == TextOrder::Less <==> text_lt(a@, b@),
        order == TextOrder::Equal <==> a@ == b@,
        order == TextOrder::Greater <==> text_lt(b@, a@),
{
    let order = compare_bytes(a.as_bytes(), b.as_bytes());
    proof {
        if text_bytes(a@) == text_bytes(b@) {
            lemma_text_bytes_injective(a@, b@);
        }
    }
    order
}

/// Text equality decided through the byte order.
pub fn text_equal(a: &str, b: &str) -> (equal: bool)
    ensures
        equal == (a@ == b@),
{
    match compare_text(a, b) {
        TextOrder::Equal => true,
        _ => false,
    }
}


pub open spec fn is_ascii_digit(b: u8) -> bool {
    48u8 <= b <= 57u8
}

pub open spec fn is_ascii_lower(b: u8) -> bool {
    97u8 <= b <= 122u8
}

pub open spec fn is_ascii_alnum(b: u8) -> bool {
    is_ascii_digit(b) || is_ascii_lower(b) || (65u8 <= b <= 90u8)
}

/// Bytes allowed after the first byte of an identifier.
pub open spec fn is_identifier_byte(b: u8) -> bool {
    is_ascii_alnum(b) || b == 46u8 || b == 95u8 || b == 58u8 || b == 47u8 || b == 45u8
}

/// The normative identifier grammar: 1 to 256 bytes, an ASCII letter or digit first,
/// then letters, digits and `.`, `_`, `:`, `/`, `-`.
pub open spec fn is_identifier(s: Seq<char>) -> bool {
    let b = text_bytes(s);
    &&& 0 < b.len() <= 256
    &&& is_ascii_alnum(b[0])
    &&& forall|i: int| 1 <= i < b.len() ==> is_identifier_byte(#[trigger] b[i])
}

/// Bytes allowed in a policy label.
pub open spec fn is_label_byte(b: u8) -> bool {
    is_ascii_lower(b) || is_ascii_digit(b) || b == 46u8 || b == 95u8 || b == 45u8
}

/// The label grammar of classifications and dictionary families: 1 to 64 bytes, a
/// lowercase ASCII letter first, then lowercase letters, digits and `.`, `_`, `-`.
pub open spec fn is_label(s: Seq<char>) -> bool {
    let b = text_bytes(s);
    &&& 0 < b.len() <= 64
    &&& is_ascii_lower(b[0])
    &&& forall|i: int| 0 <= i < b.len() ==> is_label_byte(#[trigger] b[i])
}

/// Lowercase hexadecimal digit.
pub open spec fn is_lower_hex_byte(b: u8) -> bool {
    is_ascii_digit(b) || (97u8 <= b <= 102u8)
}

/// A lowercase hexadecimal SHA-256 digest: exactly 64 lowercase hex digits.
pub open spec fn is_lower_hex_digest(s: Seq<char>) -> bool {
    let b = text_bytes(s);
    &&& b.len() == 64
    &&& forall|i: int| 0 <= i < b.len() ==> is_lower_hex_byte(#[trigger] b[i])
}

/// Decides the identifier grammar.
pub fn check_identifier(value: &str) -> (ok: bool)
    ensures
        ok == is_identifier(value@),
{
    let b = value.as_bytes();
    if b.len() == 0 || b.len() > 256 {
        return false;
    }
    let first = b[0];
    if !((48u8 <= first && first <= 57u8) || (97u8 <= first && first <= 122u8) || (65u8 <= first
        && first <= 90u8)) {
        return false;
    }
    let mut i: usize = 1;
    while i < b.len()
        invariant
            1 <= i <= b@.len(),
            b@ == text_bytes(value@),
            forall|k: int| 1 <= k < i ==> is_identifier_byte(#[trigger] b@[k]),
        decreases b@.len() - i,
    {
        let c = b[i];
        let ok = (48u8 <= c && c <= 57u8) || (97u8 <= c && c <= 122u8) || (65u8 <= c && c <= 90u8)
            || c == 46u8 || c == 95u8 || c == 58u8 || c == 47u8 || c == 45u8;
        if !ok {
            return false;
        }
        i = i + 1;
    }
    true
}

/// Decides the label grammar.
pub fn check_label(value: &str) -> (ok: bool)
    ensures
        ok == is_label(value@),
{
    let b = value.as_bytes();
    if b.len() == 0 || b.len() > 64 {
        return false;
    }
    let first = b[0];
    if !(97u8 <= first && first <= 122u8) {
        return false;
    }
    let mut i: usize = 0;
    while i < b.len()
        invariant
            0 <= i <= b@.len(),
            b@ == text_bytes(value@),
            forall|k: int| 0 <= k < i ==> is_label_byte(#[trigger] b@[k]),
        decreases b@.len() - i,
    {
        let c = b[i];
        let ok = (97u8 <= c && c <= 122u8) || (48u8 <= c && c <= 57u8) || c == 46u8 || c == 95u8
            || c == 45u8;
        if !ok {
            return false;
        }
        i = i + 1;
    }
    true
}

/// Decides whether a text is a lowercase SHA-256 hex digest.
pub fn check_lower_hex_digest(value: &str) -> (ok: bool)
    ensures
        ok == is_lower_hex_digest(value@),
{
    let b = value.as_bytes();
    if b.len() != 64 {
        return false;
    }
    let mut i: usize = 0;
    while i < b.len()
        invariant
            0 <= i <= b@.len(),
            b@ == text_bytes(value@),
            forall|k: int| 0 <= k < i ==> is_lower_hex_byte(#[trigger] b@[k]),
        decreases b@.len() - i,
    {
        let c = b[i];
        if !((48u8 <= c && c <= 57u8) || (97u8 <= c && c <= 102u8)) {
            return false;
        }
        i = i + 1;
    }
    true
}

/// The text values of a vector of strings.
pub open spec fn texts(v: Seq<String>) -> Seq<Seq<char>> {
    v.map_values(|s: String| s@)
}

/// Strictly increasing in the byte order: a set kept in `BTreeSet` order.
pub open spec fn strictly_sorted(s: Seq<Seq<char>>) -> bool {
    forall|i: int, j: int| 0 <= i < j < s.len() ==> text_lt(#[trigger] s[i], #[trigger] s[j])
}

/// A strictly sorted sequence holds no value twice.
pub proof fn lemma_strictly_sorted_no_duplicates(s: Seq<Seq<char>>)
    requires
        strictly_sorted(s),
    ensures
        s.no_duplicates(),
{
    assert forall|i: int, j: int| 0 <= i < s.len() && 0 <= j < s.len() && i != j implies s[i]
        != s[j] by {
        if i < j {
            lemma_text_lt_irreflexive(s[i]);
        } else {
            lemma_text_lt_irreflexive(s[j]);
        }
    }
}

/// Two strictly sorted sequences with the same elements are equal.
pub proof fn lemma_strictly_sorted_unique(a: Seq<Seq<char>>, b: Seq<Seq<char>>)
    requires
        strictly_sorted(a),
        strictly_sorted(b),
        a.to_set() == b.to_set(),
    ensures
        a == b,
    decreases a.len(),
{
    if a.len() == 0 {
        if b.len() > 0 {
            assert(b.to_set().contains(b[0]));
            assert(false);
        }
        assert(a =~= b);
    } else if b.len() == 0 {
        assert(a.to_set().contains(a[0]));
        assert(false);
    } else {
        // The heads are the least elements of the same set.
        assert(a.to_set().contains(a[0]));
        assert(b.to_set().contains(b[0]));
        assert(b.contains(a[0]));
        assert(a.contains(b[0]));
        let ia = choose|i: int| 0 <= i < a.len() && a[i] == b[0];
        let ib = choose|i: int| 0 <= i < b.len() && b[i] == a[0];
        if a[0] != b[0] {
            assert(ia > 0);
            assert(ib > 0);
            assert(text_lt(a[0], b[0]));
            assert(text_lt(b[0], a[0]));
            lemma_text_lt_asymmetric(a[0], b[0]);
        }
        let ta = a.drop_first();
        let tb = b.drop_first();
        assert forall|x: Seq<char>| ta.to_set().contains(x) implies tb.to_set().contains(x) by {
            let k = choose|k: int| 0 <= k < ta.len() && ta[k] == x;
            assert(a[k + 1] == x);
            assert(a.to_set().contains(x));
            assert(b.contains(x));
            let m = choose|m: int| 0 <= m < b.len() && b[m] == x;
            if m == 0 {
                lemma_text_lt_irreflexive(a[0]);
                assert(text_lt(a[0], a[k + 1]));
            }
            assert(tb[m - 1] == x);
        }
        assert forall|x: Seq<char>| tb.to_set().contains(x) implies ta.to_set().contains(x) by {
            let k = choose|k: int| 0 <= k < tb.len() && tb[k] == x;
            assert(b[k + 1] == x);
            assert(b.to_set().contains(x));
            assert(a.contains(x));
            let m = choose|m: int| 0 <= m < a.len() && a[m] == x;
            if m == 0 {
                lemma_text_lt_irreflexive(b[0]);
                assert(text_lt(b[0], b[k + 1]));
            }
            assert(ta[m - 1] == x);
        }
        assert(ta.to_set() =~= tb.to_set());
        lemma_strictly_sorted_unique(ta, tb);
        assert(a =~= seq![a[0]] + ta);
        assert(b =~= seq![b[0]] + tb);
    }
}

/// Membership in a set of strings.
pub fn contains_text(set: &Vec<String>, value: &str) -> (found: bool)
    ensures
        found == texts(set@).contains(value@),
{
    let mut i: usize = 0;
    while i < set.len()
        invariant
            0 <= i <= set@.len(),
            forall|k: int| 0 <= k < i ==> set@[k]@ != value@,
        decreases set@.len() - i,
    {
        if text_equal(set[i].as_str(), value) {
            assert(texts(set@)[i as int] == value@);
            return true;
        }
        i = i + 1;
    }
    proof {
        if texts(set@).contains(value@) {
            let k = choose|k: int| 0 <= k < texts(set@).len() && texts(set@)[k] == value@;
            assert(set@[k]@ == value@);
        }
    }
    false
}

/// Adds a value to a set of strings kept in byte order.
pub fn insert_text(set: &mut Vec<String>, value: String)
    requires
        strictly_sorted(texts(old(set)@)),
    ensures
        strictly_sorted(texts(final(set)@)),
        texts(final(set)@).to_set() == texts(old(set)@).to_set().insert(value@),
{
    let ghost before = texts(set@);
    let mut p: usize = 0;
    while p < set.len() && compare_text(set[p].as_str(), value.as_str()) == TextOrder::Less
        invariant
            0 <= p <= set@.len(),
            texts(set@) == before,
            forall|k: int| 0 <= k < p ==> text_lt(#[trigger] before[k], value@),
        decreases set@.len() - p,
    {
        p = p + 1;
    }
    if p < set.len() && text_equal(set[p].as_str(), value.as_str()) {
        assert(before[p as int] == value@);
        assert(before.to_set().insert(value@) =~= before.to_set());
        return;
    }
    proof {
        if p < set@.len() {
            lemma_text_lt_total(before[p as int], value@);
        }
    }
    set.insert(p, value);
    proof {
        let after = texts(set@);
        assert(after =~= before.subrange(0, p as int).push(value@) + before.subrange(
            p as int,
            before.len() as int,
        ));
        assert forall|i: int, j: int| 0 <= i < j < after.len() implies text_lt(
            #[trigger] after[i],
            #[trigger] after[j],
        ) by {
            if j < p {
                assert(after[i] == before[i] && after[j] == before[j]);
            } else if j == p {
                assert(after[i] == before[i]);
            } else if i < p {
                assert(after[i] == before[i] && after[j] == before[j - 1]);
                if j - 1 == p {
                } else {
                    lemma_text_lt_transitive(value@, before[p as int], before[j - 1]);
                }
                lemma_text_lt_transitive(before[i], value@, before[j - 1]);
            } else if i == p {
                assert(after[j] == before[j - 1]);
                if j - 1 > p {
                    lemma_text_lt_transitive(value@, before[p as int], before[j - 1]);
                }
            } else {
                assert(after[i] == before[i - 1] && after[j] == before[j - 1]);
            }
        }
        assert forall|x: Seq<char>| after.to_set().contains(x) <==> before.to_set().insert(
            value@,
        ).contains(x) by {
            if after.contains(x) {
                let k = choose|k: int| 0 <= k < after.len() && after[k] == x;
                if k < p {
                    assert(before[k] == x);
                } else if k > p {
                    assert(before[k - 1] == x);
                }
            }
            if before.contains(x) {
                let k = choose|k: int| 0 <= k < before.len() && before[k] == x;
                if k < p {
                    assert(after[k] == x);
                } else {
                    assert(after[k + 1] == x);
                }
            }
            if x == value@ {
                assert(after[p as int] == x);
            }
        }
        assert(after.to_set() =~= before.to_set().insert(value@));
    }
}

/// A set of text values kept in byte order, as `BTreeSet<String>` keeps it.
#[derive(Debug, PartialEq, Eq, Hash, PartialOrd, Ord)]
pub struct TextSet {
    items: Vec<String>,
}

impl View for TextSet {
    type V = Seq<Seq<char>>;

    /// The members in increasing byte order.
    closed spec fn view(&self) -> Seq<Seq<char>> {
        texts(self.items@)
    }
}

impl Clone for TextSet {
    fn clone(&self) -> (copy: Self)
        ensures
            copy@ == self@,
    {
        proof {
            use_type_invariant(self);
        }
        TextSet { items: clone_texts(&self.items) }
    }
}

/// A copy of a vector of strings.
pub fn clone_texts(v: &Vec<String>) -> (copy: Vec<String>)
    ensures
        copy@ == v@,
{
    let mut out: Vec<String> = Vec::new();
    let mut i: usize = 0;
    while i < v.len()
        invariant
            0 <= i <= v@.len(),
            out@ == v@.subrange(0, i as int),
        decreases v@.len() - i,
    {
        out.push(v[i].clone());
        assert(out@ =~= v@.subrange(0, i + 1));
        i = i + 1;
    }
    assert(out@ =~= v@);
    out
}

impl TextSet {
    #[verifier::type_invariant]
    closed spec fn canonical(self) -> bool {
        strictly_sorted(texts(self.items@))
    }

    /// The empty set.
    pub fn new() -> (set: TextSet)
        ensures
            set@ == Seq::<Seq<char>>::empty(),
    {
        let set = TextSet { items: Vec::new() };
        assert(texts(set.items@) =~= Seq::<Seq<char>>::empty());
        set
    }

    /// Adds one value.
    pub fn insert(&mut self, value: String)
        ensures
            final(self)@.to_set() == old(self)@.to_set().insert(value@),
    {
        proof {
            use_type_invariant(&*self);
        }
        let mut items = Vec::new();
        std::mem::swap(&mut items, &mut self.items);
        insert_text(&mut items, value);
        self.items = items;
    }

    /// The set of the given values.
    pub fn from_values(values: Vec<String>) -> (set: TextSet)
        ensures
            set@.to_set() == texts(values@).to_set(),
    {
        let mut set = TextSet::new();
        let mut i: usize = 0;
        let ghost target = texts(values@);
        while i < values.len()
            invariant
                0 <= i <= values@.len(),
                target == texts(values@),
                set@.to_set() == target.subrange(0, i as int).to_set(),
            decreases values@.len() - i,
        {
            set.insert(values[i].clone());
            proof {
                assert(target.subrange(0, i + 1) =~= target.subrange(0, i as int).push(target[i as int]));
                target.subrange(0, i as int).lemma_push_to_set_commute(target[i as int]);
            }
            i = i + 1;
        }
        assert(target.subrange(0, values@.len() as int) =~= target);
        set
    }

    /// The set of the given values, refused when a value occurs twice: a list
    /// that must hold distinct values is not collapsed into a set.
    pub fn from_unique(values: Vec<String>) -> (result: Option<TextSet>)
        ensures
            result is Some <==> texts(values@).no_duplicates(),
            result matches Some(set) ==> set@.to_set() == texts(values@).to_set(),
    {
        let n = values.len();
        let ghost vs = texts(values@);
        let set = TextSet::from_values(values);
        let m = set.len();
        proof {
            if vs.no_duplicates() {
                vs.unique_seq_to_set();
            }
            if m == n {
                vs.lemma_no_dup_set_cardinality();
            }
        }
        if m == n {
            Some(set)
        } else {
            None
        }
    }

    /// Whether the value is a member.
    pub fn contains(&self, value: &str) -> (found: bool)
        ensures
            found == self@.contains(value@),
    {
        contains_text(&self.items, value)
    }

    /// The number of members.
    pub fn len(&self) -> (n: usize)
        ensures
            n == self@.len(),
            n == self@.to_set().len(),
    {
        proof {
            use_type_invariant(self);
            lemma_strictly_sorted_no_duplicates(texts(self.items@));
            texts(self.items@).unique_seq_to_set();
        }
        self.items.len()
    }

    /// Whether the set has no members.
    pub fn is_empty(&self) -> (empty: bool)
        ensures
            empty == (self@.len() == 0),
            empty == (self@.to_set().len() == 0),
    {
        self.len() == 0
    }

    /// The members in increasing byte order.
    pub fn items(&self) -> (items: &Vec<String>)
        ensures
            texts(items@) == self@,
    {
        &self.items
    }

    /// The least member in byte order.
    pub fn first(&self) -> (least: Option<&String>)
        ensures
            match least {
                Some(x) => self@.len() > 0 && x@ == self@[0] && is_least_text(self@.to_set(), x@),
                None => self@.len() == 0,
            },
    {
        proof {
            use_type_invariant(self);
        }
        if self.items.len() == 0 {
            None
        } else {
            proof {
                let s = texts(self.items@);
                assert(s[0] == self.items@[0]@);
                assert forall|y: Seq<char>| s.to_set().contains(y) implies y == s[0] || text_lt(s[0], y) by {
                    let k = choose|k: int| 0 <= k < s.len() && s[k] == y;
                    if k > 0 {
                        assert(text_lt(s[0], s[k]));
                    }
                }
            }
            Some(&self.items[0])
        }
    }

    /// Whether two sets have the same members.
    pub fn same_members(&self, other: &TextSet) -> (same: bool)
        ensures
            same == (self@.to_set() == other@.to_set()),
    {
        proof {
            use_type_invariant(self);
            use_type_invariant(other);
        }
        let a = &self.items;
        let b = &other.items;
        if a.len() != b.len() {
            proof {
                lemma_strictly_sorted_no_duplicates(texts(a@));
                lemma_strictly_sorted_no_duplicates(texts(b@));
                texts(a@).unique_seq_to_set();
                texts(b@).unique_seq_to_set();
            }
            return false;
        }
        let mut i: usize = 0;
        while i < a.len()
            invariant
                0 <= i <= a@.len(),
                a@.len() == b@.len(),
                a@ == self.items@,
                b@ == other.items@,
                strictly_sorted(texts(a@)),
                strictly_sorted(texts(b@)),
                forall|k: int| 0 <= k < i ==> a@[k]@ == b@[k]@,
            decreases a@.len() - i,
        {
            if !text_equal(a[i].as_str(), b[i].as_str()) {
                proof {
                    if texts(a@).to_set() == texts(b@).to_set() {
                        lemma_strictly_sorted_unique(texts(a@), texts(b@));
                        assert(texts(a@)[i as int] == texts(b@)[i as int]);
                        assert(texts(a@)[i as int] == a@[i as int]@);
                        assert(texts(b@)[i as int] == b@[i as int]@);
                        assert(false);
                    }
                }
                return false;
            }
            i = i + 1;
        }
        assert(texts(a@) =~= texts(b@));
        true
    }

    /// Adds every member of another set.
    pub fn extend_from(&mut self, other: &TextSet)
        ensures
            final(self)@.to_set() == old(self)@.to_set().union(other@.to_set()),
    {
        let items = other.items();
        let ghost start = self@.to_set();
        let mut i: usize = 0;
        while i < items.len()
            invariant
                0 <= i <= items@.len(),
                texts(items@) == other@,
                self@.to_set() == start.union(other@.subrange(0, i as int).to_set()),
            decreases items@.len() - i,
        {
            self.insert(items[i].clone());
            proof {
                assert(other@.subrange(0, i + 1) =~= other@.subrange(0, i as int).push(other@[i as int]));
                other@.subrange(0, i as int).lemma_push_to_set_commute(other@[i as int]);
                assert(self@.to_set() =~= start.union(other@.subrange(0, i + 1).to_set()));
            }
            i = i + 1;
        }
        assert(other@.subrange(0, items@.len() as int) =~= other@);
    }
}

/// `x` is the least member of `s` in byte order.
pub open spec fn is_least_text(s: Set<Seq<char>>, x: Seq<char>) -> bool {
    &&& s.contains(x)
    &&& forall|y: Seq<char>| #[trigger] s.contains(y) ==> y == x || text_lt(x, y)
}

/// The lowercase hexadecimal digit of a value below sixteen.
pub open spec fn hex_char(n: int) -> char {
    if n == 0 {
        '0'
    } else if n == 1 {
        '1'
    } else if n == 2 {
        '2'
    } else if n == 3 {
        '3'
    } else if n == 4 {
        '4'
    } else if n == 5 {
        '5'
    } else if n == 6 {
        '6'
    } else if n == 7 {
        '7'
    } else if n == 8 {
        '8'
    } else if n == 9 {
        '9'
    } else if n == 10 {
        'a'
    } else if n == 11 {
        'b'
    } else if n == 12 {
        'c'
    } else if n == 13 {
        'd'
    } else if n == 14 {
        'e'
    } else {
        'f'
    }
}

/// Two lowercase hexadecimal digits per byte, most significant first.
pub open spec fn lower_hex_text(b: Seq<u8>) -> Seq<char>
    decreases b.len(),
{
    if b.len() == 0 {
        Seq::empty()
    } else {
        lower_hex_text(b.drop_last()) + seq![hex_char((b.last() / 16) as int), hex_char((b.last() % 16) as int)]
    }
}

/// The text of one hexadecimal digit.
fn hex_digit(n: u8) -> (digit: &'static str)
    requires
        n < 16,
    ensures
        digit@ == seq![hex_char(n as int)],
{
    if n == 0 {
        proof { reveal_strlit("0"); }
        "0"
    } else if n == 1 {
        proof { reveal_strlit("1"); }
        "1"
    } else if n == 2 {
        proof { reveal_strlit("2"); }
        "2"
    } else if n == 3 {
        proof { reveal_strlit("3"); }
        "3"
    } else if n == 4 {
        proof { reveal_strlit("4"); }
        "4"
    } else if n == 5 {
        proof { reveal_strlit("5"); }
        "5"
    } else if n == 6 {
        proof { reveal_strlit("6"); }
        "6"
    } else if n == 7 {
        proof { reveal_strlit("7"); }
        "7"
    } else if n == 8 {
        proof { reveal_strlit("8"); }
        "8"
    } else if n == 9 {
        proof { reveal_strlit("9"); }
        "9"
    } else if n == 10 {
        proof { reveal_strlit("a"); }
        "a"
    } else if n == 11 {
        proof { reveal_strlit("b"); }
        "b"
    } else if n == 12 {
        proof { reveal_strlit("c"); }
        "c"
    } else if n == 13 {
        proof { reveal_strlit("d"); }
        "d"
    } else if n == 14 {
        proof { reveal_strlit("e"); }
        "e"
    } else {
        proof { reveal_strlit("f"); }
        "f"
    }
}

/// Lowercase hexadecimal text of bytes.
pub fn lower_hex(bytes: &[u8]) -> (text: String)
    ensures
        text@ == lower_hex_text(bytes@),
{
    let mut text = String::new();
    let mut i: usize = 0;
    while i < bytes.len()
        invariant
            0 <= i <= bytes@.len(),
            text@ == lower_hex_text(bytes@.subrange(0, i as int)),
        decreases bytes@.len() - i,
    {
        let b = bytes[i];
        text.append(hex_digit(b / 16));
        text.append(hex_digit(b % 16));
        proof {
            let next = bytes@.subrange(0, i + 1);
            assert(next.drop_last() =~= bytes@.subrange(0, i as int));
            assert(next.last() == b);
        }
        i = i + 1;
    }
    assert(bytes@.subrange(0, bytes@.len() as int) =~= bytes@);
    text
}

/// The decimal digits of a natural number, most significant first.
pub open spec fn decimal_text(n: nat) -> Seq<char>
    decreases n,
{
    if n < 10 {
        seq![hex_char(n as int)]
    } else {
        decimal_text(n / 10) + seq![hex_char((n % 10) as int)]
    }
}

/// The decimal text of a number.
pub fn decimal(n: u64) -> (text: String)
    ensures
        text@ == decimal_text(n as nat),
    decreases n,
{
    if n < 10 {
        let mut text = String::new();
        text.append(hex_digit(n as u8));
        text
    } else {
        let mut text = decimal(n / 10);
        text.append(hex_digit((n % 10) as u8));
        text
    }
}

/// The decimal text of an integer: a minus sign before the digits of a negative
/// one.
pub open spec fn signed_decimal_text(n: int) -> Seq<char> {
    if n < 0 {
        "-"@ + decimal_text((-n) as nat)
    } else {
        decimal_text(n as nat)
    }
}

/// The decimal text of a signed number.
pub fn signed_decimal(n: i64) -> (text: String)
    ensures
        text@ == signed_decimal_text(n as int),
{
    if n < 0 {
        let magnitude: u64 = ((-(n + 1)) as u64) + 1;
        let mut text = "-".to_owned();
        text.append(decimal(magnitude).as_str());
        proof {
            reveal_strlit("-");
        }
        text
    } else {
        decimal(n as u64)
    }
}

/// Lexicographic order on lists of texts, each text by its bytes: the order of
/// tuples and vectors of `String`.
pub open spec fn keys_lt(a: Seq<Seq<char>>, b: Seq<Seq<char>>) -> bool
    decreases a.len(),
{
    if a.len() == 0 {
        b.len() > 0
    } else if b.len() == 0 {
        false
    } else if text_lt(a[0], b[0]) {
        true
    } else if a[0] == b[0] {
        keys_lt(a.drop_first(), b.drop_first())
    } else {
        false
    }
}

pub proof fn lemma_keys_lt_irreflexive(a: Seq<Seq<char>>)
    ensures
        !keys_lt(a, a),
    decreases a.len(),
{
    if a.len() > 0 {
        lemma_text_lt_irreflexive(a[0]);
        lemma_keys_lt_irreflexive(a.drop_first());
    }
}

pub proof fn lemma_keys_lt_transitive(a: Seq<Seq<char>>, b: Seq<Seq<char>>, c: Seq<Seq<char>>)
    requires
        keys_lt(a, b),
        keys_lt(b, c),
    ensures
        keys_lt(a, c),
    decreases a.len(),
{
    if a.len() > 0 {
        if text_lt(a[0], b[0]) && text_lt(b[0], c[0]) {
            lemma_text_lt_transitive(a[0], b[0], c[0]);
        } else if text_lt(a[0], b[0]) {
        } else if text_lt(b[0], c[0]) {
        } else {
            lemma_keys_lt_transitive(a.drop_first(), b.drop_first(), c.drop_first());
        }
    }
}

pub proof fn lemma_keys_lt_total(a: Seq<Seq<char>>, b: Seq<Seq<char>>)
    ensures
        a == b || keys_lt(a, b) || keys_lt(b, a),
    decreases a.len(),
{
    if a.len() == 0 {
        if b.len() == 0 {
            assert(a =~= b);
        }
    } else if b.len() > 0 {
        lemma_text_lt_total(a[0], b[0]);
        if a[0] == b[0] {
            lemma_keys_lt_total(a.drop_first(), b.drop_first());
            if a.drop_first() == b.drop_first() {
                assert(a =~= seq![a[0]] + a.drop_first());
                assert(b =~= seq![b[0]] + b.drop_first());
            }
        }
    }
}

pub proof fn lemma_keys_lt_asymmetric(a: Seq<Seq<char>>, b: Seq<Seq<char>>)
    ensures
        !(keys_lt(a, b) && keys_lt(b, a)),
{
    if keys_lt(a, b) && keys_lt(b, a) {
        lemma_keys_lt_transitive(a, b, a);
        lemma_keys_lt_irreflexive(a);
    }
}

/// Compares two lists of texts lexicographically.
pub fn compare_keys(a: &Vec<String>, b: &Vec<String>) -> (order: TextOrder)
    ensures
        order == TextOrder::Less <==> keys_lt(texts(a@), texts(b@)),
        order == TextOrder::Equal <==> texts(a@) == texts(b@),
        order == TextOrder::Greater <==> keys_lt(texts(b@), texts(a@)),
{
    let ghost ta = texts(a@);
    let ghost tb = texts(b@);
    let mut i: usize = 0;
    while i < a.len() && i < b.len()
        invariant
            0 <= i <= a@.len(),
            i <= b@.len(),
            ta == texts(a@),
            tb == texts(b@),
            ta.subrange(0, i as int) == tb.subrange(0, i as int),
        decreases a@.len() - i,
    {
        match compare_text(a[i].as_str(), b[i].as_str()) {
            TextOrder::Less => {
                proof {
                    lemma_keys_lt_prefix(ta, tb, i as int);
                    lemma_keys_lt_asymmetric(ta, tb);
                }
                return TextOrder::Less;
            },
            TextOrder::Greater => {
                proof {
                    lemma_keys_lt_prefix(tb, ta, i as int);
                    lemma_keys_lt_asymmetric(ta, tb);
                }
                return TextOrder::Greater;
            },
            TextOrder::Equal => {},
        }
        assert(ta.subrange(0, i + 1) =~= ta.subrange(0, i as int).push(ta[i as int]));
        assert(tb.subrange(0, i + 1) =~= tb.subrange(0, i as int).push(tb[i as int]));
        i = i + 1;
    }
    proof {
        lemma_keys_lt_common_prefix(ta, tb, i as int);
    }
    if a.len() < b.len() {
        proof {
            lemma_keys_lt_asymmetric(ta, tb);
        }
        TextOrder::Less
    } else if a.len() > b.len() {
        proof {
            lemma_keys_lt_asymmetric(ta, tb);
        }
        TextOrder::Greater
    } else {
        proof {
            assert(ta.len() == a@.len() && tb.len() == b@.len());
            assert(ta.subrange(0, i as int) =~= ta);
            assert(tb.subrange(0, i as int) =~= tb);
            lemma_keys_lt_irreflexive(ta);
        }
        TextOrder::Equal
    }
}

/// Lists that agree before `i` and differ at `i` are ordered by their texts at `i`.
proof fn lemma_keys_lt_prefix(a: Seq<Seq<char>>, b: Seq<Seq<char>>, i: int)
    requires
        0 <= i < a.len(),
        i < b.len(),
        a.subrange(0, i) == b.subrange(0, i),
        text_lt(a[i], b[i]),
    ensures
        keys_lt(a, b),
    decreases i,
{
    if i > 0 {
        assert(a[0] == a.subrange(0, i)[0]);
        assert(b[0] == b.subrange(0, i)[0]);
        assert(a.drop_first().subrange(0, i - 1) =~= a.subrange(0, i).drop_first());
        assert(b.drop_first().subrange(0, i - 1) =~= b.subrange(0, i).drop_first());
        lemma_keys_lt_prefix(a.drop_first(), b.drop_first(), i - 1);
    }
}

/// Lists that agree on their first `i` texts, one of them `i` long, are ordered by
/// length.
proof fn lemma_keys_lt_common_prefix(a: Seq<Seq<char>>, b: Seq<Seq<char>>, i: int)
    requires
        0 <= i <= a.len(),
        i <= b.len(),
        i == a.len() || i == b.len(),
        a.subrange(0, i) == b.subrange(0, i),
    ensures
        a.len() < b.len() ==> keys_lt(a, b),
        b.len() < a.len() ==> keys_lt(b, a),
    decreases i,
{
    if i > 0 {
        assert(a[0] == a.subrange(0, i)[0]);
        assert(b[0] == b.subrange(0, i)[0]);
        lemma_text_lt_irreflexive(a[0]);
        assert(a.drop_first().subrange(0, i - 1) =~= a.subrange(0, i).drop_first());
        assert(b.drop_first().subrange(0, i - 1) =~= b.subrange(0, i).drop_first());
        lemma_keys_lt_common_prefix(a.drop_first(), b.drop_first(), i - 1);
    }
}

} // verus!
