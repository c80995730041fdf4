//! The numbered records of a STEP text and the index that finds a record by
//! its number.
//!
//! A record reads `#` number `=` KIND `(` payload `)` `;` with any white space
//! between the parts. The kind begins with a capital letter or an underscore
//! and goes on in capital letters, underscores and digits. The payload runs
//! to the last `)` before the first `;` that follows the opening bracket;
//! nested brackets stay in it as text.

use std::collections::HashMap;
use vstd::prelude::*;
use crate::text::ByteClass;
use crate::text::CH_CLOSE;
use crate::text::CH_EQUALS;
use crate::text::CH_HASH;
use crate::text::CH_OPEN;
use crate::text::CH_QUOTE;
use crate::text::CH_SEMICOLON;
use crate::text::all_digits;
use crate::text::copy_range;
use crate::text::digits_value;
use crate::text::lemma_run_end;
use crate::text::lemma_run_ends_at;
use crate::text::parse_digits;
use crate::text::run_end;
use crate::text::run_start;
use crate::text::skip_run;
use crate::text::skip_run_back;

verus! {

broadcast use vstd::std_specs::hash::group_hash_axioms;

/// Largest record number.
pub const ID_MAX: u64 = 0x7fff_ffff_ffff_ffff;

/// One record of the text.
#[derive(Debug)]
pub struct StepEntity {
    pub id: i64,
    pub entity_type: Vec<u8>,
    pub data: Vec<u8>,
}

/// What a record holds: its number, its kind and its payload.
pub struct EntityRecord {
    pub id: i64,
    pub kind: Seq<u8>,
    pub data: Seq<u8>,
}

impl View for StepEntity {
    type V = EntityRecord;

    open spec fn view(&self) -> EntityRecord {
        EntityRecord { id: self.id, kind: self.entity_type@, data: self.data@ }
    }
}

/// Where the parts of a record stand in the text.
#[derive(Clone, Copy, Debug, PartialEq, Eq, Structural)]
pub struct EntitySpan {
    /// The `#`.
    pub start: usize,
    /// End of the digits, which begin after the `#`.
    pub id_to: usize,
    pub kind_from: usize,
    pub kind_to: usize,
    pub data_from: usize,
    pub data_to: usize,
    /// After the `;`.
    pub end: usize,
}

/// The record that begins at `i`, if one does.
pub open spec fn entity_at(s: Seq<u8>, i: int) -> Option<EntitySpan> {
    let id_to = run_end(s, i + 1, ByteClass::Digit);
    let eq = run_end(s, id_to, ByteClass::Space);
    let kind_from = run_end(s, eq + 1, ByteClass::Space);
    let kind_to = run_end(s, kind_from, ByteClass::KindOrDigit);
    let open = run_end(s, kind_to, ByteClass::Space);
    let semi = run_end(s, open + 1, ByteClass::Not(CH_SEMICOLON));
    let close = run_start(s, open + 1, semi, ByteClass::Space) - 1;
    if 0 <= i < s.len() && s[i] == CH_HASH && id_to > i + 1 && eq < s.len() && s[eq] == CH_EQUALS
        && kind_from < s.len() && ByteClass::Kind.has(s[kind_from]) && open < s.len() && s[open]
        == CH_OPEN && semi < s.len() && close >= open + 1 && s[close] == CH_CLOSE {
        Some(
            EntitySpan {
                start: i as usize,
                id_to: id_to as usize,
                kind_from: kind_from as usize,
                kind_to: kind_to as usize,
                data_from: (open + 1) as usize,
                data_to: close as usize,
                end: (semi + 1) as usize,
            },
        )
    } else {
        None
    }
}

/// The record at a span, unless its number is beyond `ID_MAX`.
pub open spec fn record_at(s: Seq<u8>, m: EntitySpan) -> Option<EntityRecord> {
    let number = digits_value(s.subrange(m.start + 1, m.id_to as int));
    if number <= ID_MAX {
        Some(
            EntityRecord {
                id: number as i64,
                kind: s.subrange(m.kind_from as int, m.kind_to as int),
                data: s.subrange(m.data_from as int, m.data_to as int),
            },
        )
    } else {
        None
    }
}

/// The records of the text from `from` on, from left to right. After a record
/// the search goes on behind its `;`, elsewhere at the next byte.
pub open spec fn records_from(s: Seq<u8>, from: int) -> Seq<EntityRecord>
    decreases s.len() - from,
{
    if from < 0 || from >= s.len() {
        Seq::empty()
    } else {
        match entity_at(s, from) {
            Some(m) => if m.end > from {
                (match record_at(s, m) {
                    Some(r) => seq![r],
                    None => Seq::empty(),
                }) + records_from(s, m.end as int)
            } else {
                Seq::empty()
            },
            None => records_from(s, from + 1),
        }
    }
}

/// The records of a text.
pub open spec fn records_of(s: Seq<u8>) -> Seq<EntityRecord> {
    records_from(s, 0)
}

/// Place of the last record with the number `id`.
pub open spec fn last_position(records: Seq<EntityRecord>, id: i64) -> Option<int>
    decreases records.len(),
{
    if records.len() == 0 {
        None
    } else if records.last().id == id {
        Some(records.len() - 1)
    } else {
        last_position(records.drop_last(), id)
    }
}

/// The record that the number `id` names: the last one with that number.
pub open spec fn record_with_id(records: Seq<EntityRecord>, id: i64) -> Option<EntityRecord> {
    match last_position(records, id) {
        Some(j) => Some(records[j]),
        None => None,
    }
}

/// Record `j` is the one that its number names: no later record has that number.
pub open spec fn is_current(records: Seq<EntityRecord>, j: int) -> bool {
    0 <= j < records.len() && last_position(records, records[j].id) == Some(j)
}

/// The mapping from number to record.
pub open spec fn record_map(records: Seq<EntityRecord>) -> Map<i64, EntityRecord> {
    Map::new(
        |id: i64| record_with_id(records, id) is Some,
        |id: i64| record_with_id(records, id).unwrap(),
    )
}

/// The last place of a number holds that number and no later place does;
/// where there is none, no place holds it.
pub proof fn lemma_last_position(records: Seq<EntityRecord>, id: i64)
    ensures
        match last_position(records, id) {
            Some(j) => 0 <= j < records.len() && records[j].id == id && forall|k: int|
                j < k < records.len() ==> (#[trigger] records[k]).id != id,
            None => forall|k: int| 0 <= k < records.len() ==> (#[trigger] records[k]).id != id,
        },
    decreases records.len(),
{
    if records.len() > 0 && records.last().id != id {
        let front = records.drop_last();
        lemma_last_position(front, id);
        match last_position(front, id) {
            Some(j) => {
                assert forall|k: int| j < k < records.len() implies (#[trigger] records[k]).id
                    != id by {
                    if k < front.len() {
                        assert(front[k] == records[k]);
                    }
                }
            },
            None => {
                assert forall|k: int| 0 <= k < records.len() implies (#[trigger] records[k]).id
                    != id by {
                    if k < front.len() {
                        assert(front[k] == records[k]);
                    }
                }
            },
        }
    }
}

/// The record that begins at `i`, if one does.
pub fn scan_entity(s: &[u8], i: usize) -> (r: Option<EntitySpan>)
    requires
        i < s@.len(),
    ensures
        r == entity_at(s@, i as int),
        r matches Some(m) ==> m.start == i && i + 1 < m.id_to <= m.kind_from < m.kind_to
            < m.data_from <= m.data_to < m.end <= s@.len() && all_digits(
            s@.subrange(i + 1, m.id_to as int),
        ),
{
    if s[i] != CH_HASH {
        return None;
    }
    let id_to = skip_run(s, i + 1, ByteClass::Digit);
    if id_to == i + 1 {
        return None;
    }
    let eq = skip_run(s, id_to, ByteClass::Space);
    if eq >= s.len() || s[eq] != CH_EQUALS {
        return None;
    }
    let kind_from = skip_run(s, eq + 1, ByteClass::Space);
    if kind_from >= s.len() || !ByteClass::Kind.holds(s[kind_from]) {
        return None;
    }
    let kind_to = skip_run(s, kind_from, ByteClass::KindOrDigit);
    let open = skip_run(s, kind_to, ByteClass::Space);
    if open >= s.len() || s[open] != CH_OPEN {
        return None;
    }
    let semi = skip_run(s, open + 1, ByteClass::Not(CH_SEMICOLON));
    if semi >= s.len() {
        return None;
    }
    let after_close = skip_run_back(s, open + 1, semi, ByteClass::Space);
    if after_close < open + 2 || s[after_close - 1] != CH_CLOSE {
        return None;
    }
    proof {
        lemma_run_end(s@, i + 1, ByteClass::Digit);
        assert forall|k: int| 0 <= k < id_to - (i + 1) implies ByteClass::Digit.has(
            #[trigger] s@.subrange(i + 1, id_to as int)[k],
        ) by {
            assert(s@.subrange(i + 1, id_to as int)[k] == s@[i + 1 + k]);
        }
    }
    Some(
        EntitySpan {
            start: i,
            id_to,
            kind_from,
            kind_to,
            data_from: open + 1,
            data_to: after_close - 1,
            end: semi + 1,
        },
    )
}

/// The views of the entities, in their order.
pub open spec fn views_of(entities: Seq<StepEntity>) -> Seq<EntityRecord> {
    Seq::new(entities.len(), |j: int| entities[j]@)
}

/// The records of a text, from left to right.
pub fn scan_entities(s: &[u8]) -> (out: Vec<StepEntity>)
    ensures
        views_of(out@) == records_of(s@),
        out@.len() <= ID_MAX,
{
    let mut out: Vec<StepEntity> = Vec::new();
    let mut pos: usize = 0;
    while pos < s.len()
        invariant
            pos <= s@.len(),
            records_of(s@) == views_of(out@) + records_from(s@, pos as int),
            2 * out@.len() <= pos,
        decreases s@.len() - pos,
    {
        match scan_entity(s, pos) {
            Some(m) => {
                match parse_digits(s, m.start + 1, m.id_to, ID_MAX) {
                    Some(number) => {
                        let ghost before = views_of(out@);
                        let entity = StepEntity {
                            id: number as i64,
                            entity_type: copy_range(s, m.kind_from, m.kind_to),
                            data: copy_range(s, m.data_from, m.data_to),
                        };
                        out.push(entity);
                        assert(views_of(out@) =~= before + seq![record_at(s@, m).unwrap()]);
                    },
                    None => {},
                }
                pos = m.end;
            },
            None => {
                pos = pos + 1;
            },
        }
    }
    assert(records_from(s@, pos as int) =~= Seq::<EntityRecord>::empty());
    assert(views_of(out@) + Seq::<EntityRecord>::empty() =~= views_of(out@));
    out
}

/// The records of a text with the means to find one by its number. Where a
/// number stands on several records, the last of them is the one it names.
pub struct EntityIndex {
    entities: Vec<StepEntity>,
    by_id: HashMap<i64, usize>,
}

impl EntityIndex {
    #[verifier::type_invariant]
    spec fn wf(&self) -> bool {
        &&& self.entities@.len() <= ID_MAX
        &&& forall|id: i64|
            match #[trigger] last_position(views_of(self.entities@), id) {
                Some(j) => self.by_id@.contains_key(id) && self.by_id@[id] == j,
                None => !self.by_id@.contains_key(id),
            }
    }

    /// The records in the order of the text.
    pub closed spec fn records(&self) -> Seq<EntityRecord> {
        views_of(self.entities@)
    }

    /// An index of the given records.
    pub fn new(entities: Vec<StepEntity>) -> (r: EntityIndex)
        requires
            entities@.len() <= ID_MAX,
        ensures
            r.records() == views_of(entities@),
    {
        let mut by_id: HashMap<i64, usize> = HashMap::new();
        let mut j: usize = 0;
        let ghost views = views_of(entities@);
        assert forall|id: i64| last_position(views.take(0), id) is None by {}
        while j < entities.len()
            invariant
                j <= entities.len(),
                views == views_of(entities@),
                forall|id: i64|
                    match #[trigger] last_position(views.take(j as int), id) {
                        Some(k) => by_id@.contains_key(id) && by_id@[id] == k,
                        None => !by_id@.contains_key(id),
                    },
            decreases entities.len() - j,
        {
            let ghost before = by_id@;
            by_id.insert(entities[j].id, j);
            proof {
                assert(views.take(j + 1).drop_last() =~= views.take(j as int));
                assert(views.take(j + 1).last() == views[j as int]);
                assert forall|id: i64|
                    match #[trigger] last_position(views.take(j + 1), id) {
                        Some(k) => by_id@.contains_key(id) && by_id@[id] == k,
                        None => !by_id@.contains_key(id),
                    } by {
                    let earlier = last_position(views.take(j as int), id);
                    if views[j as int].id != id {
                        assert(last_position(views.take(j + 1), id) == earlier);
                    }
                }
            }
            j = j + 1;
        }
        assert(views.take(entities.len() as int) =~= views);
        EntityIndex { entities, by_id }
    }

    /// Number of records.
    pub fn len(&self) -> (n: usize)
        ensures
            n == self.records().len(),
            n <= ID_MAX,
    {
        proof {
            use_type_invariant(self);
        }
        self.entities.len()
    }

    /// Record `j` in the order of the text.
    pub fn entity(&self, j: usize) -> (e: &StepEntity)
        requires
            j < self.records().len(),
        ensures
            e@ == self.records()[j as int],
    {
        &self.entities[j]
    }

    /// Whether record `j` is the one that its number names.
    pub fn is_current(&self, j: usize) -> (r: bool)
        requires
            j < self.records().len(),
        ensures
            r == is_current(self.records(), j as int),
    {
        proof {
            use_type_invariant(self);
            lemma_last_position(self.records(), self.records()[j as int].id);
        }
        match self.by_id.get(&self.entities[j].id) {
            Some(k) => *k == j,
            None => false,
        }
    }

    /// The record that `id` names.
    pub fn get(&self, id: i64) -> (r: Option<&StepEntity>)
        ensures
            match record_with_id(self.records(), id) {
                Some(record) => r matches Some(e) && e@ == record,
                None => r is None,
            },
    {
        proof {
            use_type_invariant(self);
            lemma_last_position(self.records(), id);
        }
        match self.by_id.get(&id) {
            Some(k) => Some(&self.entities[*k]),
            None => None,
        }
    }
}

/// `index` holds the records of the text `s`.
pub open spec fn is_index_of(index: EntityIndex, s: Seq<u8>) -> bool {
    index.records() == records_of(s)
}

/// The records of a text, indexed by their numbers.
pub fn parse_step_entities(content: &[u8]) -> (index: EntityIndex)
    ensures
        is_index_of(index, content@),
{
    EntityIndex::new(scan_entities(content))
}

/// Reading a text twice gives the same records and the same mapping from
/// number to record.
pub proof fn lemma_parse_is_repeatable(s: Seq<u8>, first: EntityIndex, second: EntityIndex)
    requires
        is_index_of(first, s),
        is_index_of(second, s),
    ensures
        first.records() == second.records(),
        record_map(first.records()) == record_map(second.records()),
{
}

/// The text of one record without white space: `#`, the digits, `=`, the
/// kind, `(`, the payload, `)` and `;`.
pub open spec fn record_text(digits: Seq<u8>, kind: Seq<u8>, payload: Seq<u8>) -> Seq<u8> {
    seq![CH_HASH] + digits + seq![CH_EQUALS] + kind + seq![CH_OPEN] + payload + seq![
        CH_CLOSE,
        CH_SEMICOLON,
    ]
}

/// A record that is written as the grammar asks is read as it is written:
/// from digits that write a number up to `ID_MAX`, a kind that begins with
/// a capital letter or an underscore and goes on in capital letters,
/// underscores and digits, and a payload without a semicolon, the text of
/// the record gives that one record, with that number, kind and payload.
pub proof fn lemma_record_is_read(digits: Seq<u8>, kind: Seq<u8>, payload: Seq<u8>)
    requires
        digits.len() > 0,
        all_digits(digits),
        digits_value(digits) <= ID_MAX,
        kind.len() > 0,
        ByteClass::Kind.has(kind[0]),
        forall|k: int| 0 <= k < kind.len() ==> ByteClass::KindOrDigit.has(#[trigger] kind[k]),
        forall|k: int| 0 <= k < payload.len() ==> #[trigger] payload[k] != CH_SEMICOLON,
        record_text(digits, kind, payload).len() <= usize::MAX,
    ensures
        records_of(record_text(digits, kind, payload)) == seq![
            EntityRecord { id: digits_value(digits) as i64, kind: kind, data: payload },
        ],
{
    let s = record_text(digits, kind, payload);
    let id_to: int = 1 + digits.len() as int;
    let kind_from: int = id_to + 1;
    let kind_to: int = kind_from + kind.len() as int;
    let data_from: int = kind_to + 1;
    let data_to: int = data_from + payload.len() as int;
    let end: int = data_to + 2;
    assert(s.len() == end);
    assert(s[0] == CH_HASH);
    assert forall|k: int| 1 <= k < id_to implies ByteClass::Digit.has(#[trigger] s[k]) by {
        assert(s[k] == digits[k - 1]);
    }
    assert(s[id_to] == CH_EQUALS);
    assert forall|k: int| kind_from <= k < kind_to implies ByteClass::KindOrDigit.has(
        #[trigger] s[k],
    ) by {
        assert(s[k] == kind[k - kind_from]);
    }
    assert(s[kind_from] == kind[0]);
    assert(s[kind_to] == CH_OPEN);
    assert forall|k: int| data_from <= k < data_to implies ByteClass::Not(CH_SEMICOLON).has(
        #[trigger] s[k],
    ) by {
        assert(s[k] == payload[k - data_from]);
    }
    assert(s[data_to] == CH_CLOSE);
    assert(s[data_to + 1] == CH_SEMICOLON);
    lemma_run_ends_at(s, 1, id_to, ByteClass::Digit);
    lemma_run_ends_at(s, id_to, id_to, ByteClass::Space);
    lemma_run_ends_at(s, kind_from, kind_from, ByteClass::Space);
    lemma_run_ends_at(s, kind_from, kind_to, ByteClass::KindOrDigit);
    lemma_run_ends_at(s, kind_to, kind_to, ByteClass::Space);
    lemma_run_ends_at(s, data_from, data_to + 1, ByteClass::Not(CH_SEMICOLON));
    assert(run_start(s, data_from, data_to + 1, ByteClass::Space) == data_to + 1);
    let m = EntitySpan {
        start: 0,
        id_to: id_to as usize,
        kind_from: kind_from as usize,
        kind_to: kind_to as usize,
        data_from: data_from as usize,
        data_to: data_to as usize,
        end: end as usize,
    };
    assert(entity_at(s, 0) == Some(m));
    assert(s.subrange(1, id_to) =~= digits);
    assert(s.subrange(kind_from, kind_to) =~= kind);
    assert(s.subrange(data_from, data_to) =~= payload);
    let record = EntityRecord { id: digits_value(digits) as i64, kind: kind, data: payload };
    assert(record_at(s, m) == Some(record));
    assert(records_from(s, end) =~= Seq::<EntityRecord>::empty());
    assert(records_from(s, 0) =~= seq![record] + records_from(s, end));
    assert(seq![record] + Seq::<EntityRecord>::empty() =~= seq![record]);
}

/// The numbers that a payload refers to, from left to right: each `#` with
/// digits behind it, but for numbers beyond `ID_MAX`.
pub open spec fn refs_from(s: Seq<u8>, from: int) -> Seq<i64>
    decreases s.len() - from,
{
    if from < 0 || from >= s.len() {
        Seq::empty()
    } else {
        let to = run_end(s, from + 1, ByteClass::Digit);
        if s[from] == CH_HASH && from + 1 < to <= s.len() {
            let number = digits_value(s.subrange(from + 1, to));
            (if number <= ID_MAX {
                seq![number as i64]
            } else {
                Seq::empty()
            }) + refs_from(s, to)
        } else {
            refs_from(s, from + 1)
        }
    }
}

/// The numbers that a payload refers to.
pub open spec fn refs_of(s: Seq<u8>) -> Seq<i64> {
    refs_from(s, 0)
}

/// The numbers that a payload refers to.
pub fn parse_refs(data: &[u8]) -> (refs: Vec<i64>)
    ensures
        refs@ == refs_of(data@),
{
    let mut refs: Vec<i64> = Vec::new();
    let mut pos: usize = 0;
    while pos < data.len()
        invariant
            pos <= data@.len(),
            refs_of(data@) == refs@ + refs_from(data@, pos as int),
        decreases data@.len() - pos,
    {
        if data[pos] == CH_HASH {
            let to = skip_run(data, pos + 1, ByteClass::Digit);
            if to > pos + 1 {
                proof {
                    lemma_run_end(data@, pos + 1, ByteClass::Digit);
                    assert forall|k: int| 0 <= k < to - (pos + 1) implies ByteClass::Digit.has(
                        #[trigger] data@.subrange(pos + 1, to as int)[k],
                    ) by {
                        assert(data@.subrange(pos + 1, to as int)[k] == data@[pos + 1 + k]);
                    }
                }
                let ghost before = refs@;
                match parse_digits(data, pos + 1, to, ID_MAX) {
                    Some(number) => {
                        refs.push(number as i64);
                        assert(refs@ =~= before + seq![number as i64]);
                    },
                    None => {},
                }
                assert(refs_of(data@) =~= refs@ + refs_from(data@, to as int));
                pos = to;
            } else {
                pos = pos + 1;
            }
        } else {
            pos = pos + 1;
        }
    }
    assert(refs_from(data@, pos as int) =~= Seq::<i64>::empty());
    assert(refs@ + Seq::<i64>::empty() =~= refs@);
    refs
}

/// The text between the first two quotes of a payload.
pub open spec fn quoted_name(s: Seq<u8>) -> Option<Seq<u8>> {
    let first = run_end(s, 0, ByteClass::Not(CH_QUOTE));
    let second = run_end(s, first + 1, ByteClass::Not(CH_QUOTE));
    if first < s.len() && second < s.len() {
        Some(s.subrange(first + 1, second))
    } else {
        None
    }
}

/// The text between the first two quotes of a payload.
pub fn extract_quoted_name(data: &[u8]) -> (name: Option<Vec<u8>>)
    ensures
        match quoted_name(data@) {
            Some(text) => name matches Some(v) && v@ == text,
            None => name is None,
        },
{
    let first = skip_run(data, 0, ByteClass::Not(CH_QUOTE));
    if first >= data.len() {
        return None;
    }
    let second = skip_run(data, first + 1, ByteClass::Not(CH_QUOTE));
    if second >= data.len() {
        return None;
    }
    Some(copy_range(data, first + 1, second))
}

} // verus!
