//! What the vector store hands back: points with payloads, read into candidates.
use vstd::prelude::*;

use crate::text::views;

verus! {

/// A value stored in a point's payload, as far as the search reads it: a
/// string, a list, some other kind of value, or a value with no kind set.
#[derive(Debug)]
pub enum PayloadValue {
    Missing,
    Str(String),
    List(Vec<PayloadValue>),
    Other,
}

/// The payload of a point: values by key, each key at most once.
#[derive(Debug)]
pub struct Payload {
    entries: Vec<(String, PayloadValue)>,
}

/// Whether the keys of `entries` are distinct.
pub open spec fn distinct_keys(entries: Seq<(String, PayloadValue)>) -> bool {
    forall|i: int, j: int|
        0 <= i < entries.len() && 0 <= j < entries.len() && i != j ==> (#[trigger] entries[i]).0@
            != (#[trigger] entries[j]).0@
}

/// The map that a list of entries with distinct keys stands for.
pub open spec fn entries_map(entries: Seq<(String, PayloadValue)>) -> Map<Seq<char>, PayloadValue> {
    Map::new(
        |k: Seq<char>| exists|i: int| 0 <= i < entries.len() && (#[trigger] entries[i]).0@ == k,
        |k: Seq<char>|
            entries[choose|i: int| 0 <= i < entries.len() && (#[trigger] entries[i]).0@ == k].1,
    )
}

impl Payload {
    #[verifier::type_invariant]
    spec fn keys_distinct(self) -> bool {
        distinct_keys(self.entries@)
    }

    /// The payload as a map from keys to values.
    pub closed spec fn as_map(self) -> Map<Seq<char>, PayloadValue> {
        entries_map(self.entries@)
    }

    /// An empty payload.
    pub fn new() -> (r: Payload)
        ensures
            r.as_map() == Map::<Seq<char>, PayloadValue>::empty(),
    {
        let r = Payload { entries: Vec::new() };
        assert(r.as_map() =~= Map::<Seq<char>, PayloadValue>::empty());
        r
    }

    fn position(&self, key: &str) -> (r: Option<usize>)
        ensures
            match r {
                Some(i) => i < self.entries@.len() && self.entries@[i as int].0@ == key@,
                None => forall|i: int|
                    0 <= i < self.entries@.len() ==> (#[trigger] self.entries@[i]).0@ != key@,
            },
    {
        let n = self.entries.len();
        let mut i: usize = 0;
        while i < n
            invariant
                n == self.entries@.len(),
                i <= n,
                forall|j: int| 0 <= j < i ==> (#[trigger] self.entries@[j]).0@ != key@,
            decreases n - i,
        {
            if crate::json::text_eq(self.entries[i].0.as_str(), key) {
                return Some(i);
            }
            i = i + 1;
        }
        None
    }

    /// Sets the value of `key`, replacing the value it had.
    pub fn insert(&mut self, key: String, value: PayloadValue)
        ensures
            final(self).as_map() == old(self).as_map().insert(key@, value),
    {
        proof {
            use_type_invariant(&*self);
        }
        let ghost old_entries = self.entries@;
        match self.position(key.as_str()) {
            Some(i) => {
                let mut entries: Vec<(String, PayloadValue)> = Vec::new();
                std::mem::swap(&mut entries, &mut self.entries);
                let ghost k = key@;
                entries.set(i, (key, value));
                proof {
                    assert(entries@ == old_entries.update(i as int, (entries@[i as int].0, value)));
                    assert forall|a: int, b: int|
                        0 <= a < entries@.len() && 0 <= b < entries@.len() && a != b implies (#[trigger] entries@[a]).0@
                        != (#[trigger] entries@[b]).0@ by {
                        if a != i && b != i {
                            assert(entries@[a] == old_entries[a]);
                            assert(entries@[b] == old_entries[b]);
                        } else if a == i {
                            assert(entries@[b] == old_entries[b]);
                        } else {
                            assert(entries@[a] == old_entries[a]);
                        }
                    }
                    lemma_map_after_set(old_entries, entries@, i as int, k, value);
                }
                self.entries = entries;
            },
            None => {
                let ghost k = key@;
                let mut entries: Vec<(String, PayloadValue)> = Vec::new();
                std::mem::swap(&mut entries, &mut self.entries);
                entries.push((key, value));
                proof {
                    assert forall|a: int, b: int|
                        0 <= a < entries@.len() && 0 <= b < entries@.len() && a != b implies (#[trigger] entries@[a]).0@
                        != (#[trigger] entries@[b]).0@ by {
                        if a < old_entries.len() {
                            assert(entries@[a] == old_entries[a]);
                        }
                        if b < old_entries.len() {
                            assert(entries@[b] == old_entries[b]);
                        }
                    }
                    lemma_map_after_push(old_entries, entries@, k, value);
                }
                self.entries = entries;
            },
        }
    }

    /// The value of `key`, if the payload has one.
    pub fn get(&self, key: &str) -> (r: Option<&PayloadValue>)
        ensures
            match r {
                Some(v) => self.as_map().contains_key(key@) && self.as_map()[key@] == *v,
                None => !self.as_map().contains_key(key@),
            },
    {
        proof {
            use_type_invariant(self);
        }
        match self.position(key) {
            Some(i) => {
                proof {
                    lemma_map_at(self.entries@, i as int);
                }
                Some(&self.entries[i].1)
            },
            None => None,
        }
    }
}

/// In a list with distinct keys, the map holds each entry.
proof fn lemma_map_at(entries: Seq<(String, PayloadValue)>, i: int)
    requires
        distinct_keys(entries),
        0 <= i < entries.len(),
    ensures
        entries_map(entries).contains_key(entries[i].0@),
        entries_map(entries)[entries[i].0@] == entries[i].1,
{
    let k = entries[i].0@;
    assert(entries_map(entries).contains_key(k));
    let j = choose|j: int| 0 <= j < entries.len() && (#[trigger] entries[j]).0@ == k;
    assert(j == i);
}

proof fn lemma_map_after_set(
    before: Seq<(String, PayloadValue)>,
    after: Seq<(String, PayloadValue)>,
    i: int,
    k: Seq<char>,
    v: PayloadValue,
)
    requires
        distinct_keys(before),
        distinct_keys(after),
        0 <= i < before.len(),
        before[i].0@ == k,
        after.len() == before.len(),
        after[i].0@ == k,
        after[i].1 == v,
        forall|j: int| 0 <= j < before.len() && j != i ==> after[j] == before[j],
    ensures
        entries_map(after) == entries_map(before).insert(k, v),
{
    let m1 = entries_map(after);
    let m2 = entries_map(before).insert(k, v);
    assert forall|key: Seq<char>| #[trigger] m1.contains_key(key) <==> m2.contains_key(key) by {
        if m1.contains_key(key) {
            let j = choose|j: int| 0 <= j < after.len() && (#[trigger] after[j]).0@ == key;
            if j != i {
                assert(before[j].0@ == key);
            }
        }
        if m2.contains_key(key) && key != k {
            let j = choose|j: int| 0 <= j < before.len() && (#[trigger] before[j]).0@ == key;
            assert(after[j].0@ == key);
        }
        if key == k {
            assert(after[i].0@ == key);
        }
    }
    assert forall|key: Seq<char>| m1.contains_key(key) implies #[trigger] m1[key] == m2[key] by {
        let j = choose|j: int| 0 <= j < after.len() && (#[trigger] after[j]).0@ == key;
        lemma_map_at(after, j);
        if j != i {
            assert(before[j] == after[j]);
            lemma_map_at(before, j);
        }
    }
    assert(m1 =~= m2);
}

proof fn lemma_map_after_push(
    before: Seq<(String, PayloadValue)>,
    after: Seq<(String, PayloadValue)>,
    k: Seq<char>,
    v: PayloadValue,
)
    requires
        distinct_keys(before),
        distinct_keys(after),
        after.len() == before.len() + 1,
        after.last().0@ == k,
        after.last().1 == v,
        forall|j: int| 0 <= j < before.len() ==> after[j] == before[j],
    ensures
        entries_map(after) == entries_map(before).insert(k, v),
{
    let m1 = entries_map(after);
    let m2 = entries_map(before).insert(k, v);
    let last = before.len() as int;
    assert forall|key: Seq<char>| #[trigger] m1.contains_key(key) <==> m2.contains_key(key) by {
        if m1.contains_key(key) {
            let j = choose|j: int| 0 <= j < after.len() && (#[trigger] after[j]).0@ == key;
            if j != last {
                assert(before[j].0@ == key);
            }
        }
        if m2.contains_key(key) && key != k {
            let j = choose|j: int| 0 <= j < before.len() && (#[trigger] before[j]).0@ == key;
            assert(after[j].0@ == key);
        }
        if key == k {
            assert(after[last].0@ == key);
        }
    }
    assert forall|key: Seq<char>| m1.contains_key(key) implies #[trigger] m1[key] == m2[key] by {
        let j = choose|j: int| 0 <= j < after.len() && (#[trigger] after[j]).0@ == key;
        lemma_map_at(after, j);
        if j != last {
            assert(before[j] == after[j]);
            lemma_map_at(before, j);
        }
    }
    assert(m1 =~= m2);
}

/// The value of `key` in `m`, if any.
pub open spec fn lookup(m: Map<Seq<char>, PayloadValue>, key: Seq<char>) -> Option<PayloadValue> {
    if m.contains_key(key) {
        Some(m[key])
    } else {
        None
    }
}

/// The text of a payload value that is a string; empty for anything else.
pub open spec fn string_value(v: Option<PayloadValue>) -> Seq<char> {
    match v {
        Some(PayloadValue::Str(s)) => s@,
        _ => Seq::empty(),
    }
}

/// The strings among `items`, in order.
pub open spec fn strings_among(items: Seq<PayloadValue>) -> Seq<Seq<char>>
    decreases items.len(),
{
    if items.len() == 0 {
        Seq::empty()
    } else {
        match items.last() {
            PayloadValue::Str(s) => strings_among(items.drop_last()).push(s@),
            _ => strings_among(items.drop_last()),
        }
    }
}

/// The strings of a payload value: those of a list, the one of a string,
/// none for anything else.
pub open spec fn string_list_value(v: Option<PayloadValue>) -> Seq<Seq<char>> {
    match v {
        Some(PayloadValue::List(items)) => strings_among(items@),
        Some(PayloadValue::Str(s)) => seq![s@],
        _ => Seq::empty(),
    }
}

/// The string stored under `key`; empty when the key is absent or holds no string.
pub fn extract_string(payload: &Payload, key: &str) -> (r: String)
    ensures
        r@ == string_value(lookup(payload.as_map(), key@)),
{
    match payload.get(key) {
        Some(PayloadValue::Str(s)) => s.clone(),
        _ => String::new(),
    }
}

/// The strings stored under `key`: the strings of a list, or the one string.
pub fn extract_string_list(payload: &Payload, key: &str) -> (r: Vec<String>)
    ensures
        views(r@) == string_list_value(lookup(payload.as_map(), key@)),
{
    let mut out: Vec<String> = Vec::new();
    match payload.get(key) {
        Some(PayloadValue::List(items)) => {
            let n = items.len();
            let mut i: usize = 0;
            while i < n
                invariant
                    n == items@.len(),
                    i <= n,
                    views(out@) == strings_among(items@.take(i as int)),
                decreases n - i,
            {
                assert(items@.take(i + 1).drop_last() =~= items@.take(i as int));
                match &items[i] {
                    PayloadValue::Str(s) => {
                        out.push(s.clone());
                        assert(views(out@) =~= strings_among(items@.take(i as int)).push(s@));
                    },
                    _ => {},
                }
                i = i + 1;
            }
            assert(items@.take(n as int) =~= items@);
        },
        Some(PayloadValue::Str(s)) => {
            out.push(s.clone());
            assert(views(out@) =~= seq![s@]);
        },
        _ => {
            assert(views(out@) =~= Seq::<Seq<char>>::empty());
        },
    }
    out
}

/// A search hit: the point's id, its displayed text and the messages it covers.
#[derive(Debug, Clone)]
pub struct Candidate {
    pub id: String,
    pub page_content: String,
    pub message_ids: Vec<String>,
}

/// The candidate made of a point with id `id` and payload `payload`.
pub fn candidate_from_point(id: String, payload: &Payload) -> (r: Candidate)
    ensures
        r.id@ == id@,
        r.page_content@ == string_value(lookup(payload.as_map(), "page_content"@)),
        views(r.message_ids@) == string_list_value(lookup(payload.as_map(), "message_ids"@)),
{
    Candidate {
        id,
        page_content: extract_string(payload, "page_content"),
        message_ids: extract_string_list(payload, "message_ids"),
    }
}

} // verus!
