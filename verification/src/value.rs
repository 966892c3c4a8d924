//! The value tree that reading a document yields, and its mathematical model.

use crate::number::is_number_literal;
use crate::text::same_text;
use vstd::prelude::*;
use vstd::utf8::encode_utf8;

verus! {

/// The mathematical model of a JSON value.  A number is held as the text of
/// its literal; an object is a map, so its keys are unique and unordered.
pub enum Json {
    Null,
    Bool(bool),
    Str(Seq<char>),
    Num(Seq<char>),
    Array(Seq<Json>),
    Dict(Map<Seq<char>, Json>),
}

/// The map that a list of entries denotes: the entries are inserted from
/// first to last, so of two entries with one key the later one stays.
pub open spec fn pairs_to_map(pairs: Seq<(Seq<char>, Json)>) -> Map<Seq<char>, Json>
    decreases pairs.len(),
{
    if pairs.len() == 0 {
        Map::empty()
    } else {
        pairs_to_map(pairs.drop_last()).insert(pairs.last().0, pairs.last().1)
    }
}

/// A JSON value that owns all of its text.  The entries of an object are
/// kept in a vector in which no key occurs twice (see [`JSONValue::wf`]).
#[derive(Debug, PartialEq)]
pub enum JSONValue {
    Null,
    Bool(bool),
    Str(String),
    Num(String),
    Array(Vec<JSONValue>),
    Dict(Vec<(String, JSONValue)>),
}

/// `text` is a well-formed numeric literal.
pub open spec fn is_number_text(text: Seq<char>) -> bool {
    is_number_literal(encode_utf8(text))
}

/// The models of the elements of an array, in order.
pub open spec fn items_view(items: Seq<JSONValue>) -> Seq<Json>
    decreases items,
{
    Seq::new(items.len(), |i: int| if 0 <= i < items.len() { items[i]@ } else { Json::Null })
}

/// The keys and the models of the entries of an object, in order.
pub open spec fn entries_view(entries: Seq<(String, JSONValue)>) -> Seq<(Seq<char>, Json)>
    decreases entries,
{
    Seq::new(
        entries.len(),
        |i: int| if 0 <= i < entries.len() { (entries[i].0@, entries[i].1@) } else { (Seq::empty(), Json::Null) },
    )
}

/// No key occurs twice among `entries`.
pub open spec fn distinct_keys(entries: Seq<(String, JSONValue)>) -> bool {
    forall|i: int, j: int| 0 <= i < j < entries.len() ==> (#[trigger] entries[i]).0@ != (#[trigger] entries[j]).0@
}

impl View for JSONValue {
    type V = Json;

    open spec fn view(&self) -> Json
        decreases self,
    {
        match self {
            JSONValue::Null => Json::Null,
            JSONValue::Bool(b) => Json::Bool(*b),
            JSONValue::Str(s) => Json::Str(s@),
            JSONValue::Num(s) => Json::Num(s@),
            JSONValue::Array(items) => Json::Array(items_view(items@)),
            JSONValue::Dict(entries) => Json::Dict(pairs_to_map(entries_view(entries@))),
        }
    }
}

impl JSONValue {
    /// The invariant of a value tree: every number of the tree holds a
    /// well-formed literal, and in every object of the tree no key occurs
    /// twice.
    pub open spec fn wf(&self) -> bool
        decreases self,
    {
        match self {
            JSONValue::Num(text) => is_number_text(text@),
            JSONValue::Array(items) => forall|i: int| 0 <= i < items.len() ==> (#[trigger] items[i]).wf(),
            JSONValue::Dict(entries) => {
                &&& distinct_keys(entries@)
                &&& forall|i: int| 0 <= i < entries.len() ==> (#[trigger] entries[i]).1.wf()
            },
            _ => true,
        }
    }
}

/// Appending an entry to a list inserts it into the map of the list.
pub proof fn lemma_pairs_to_map_push(pairs: Seq<(Seq<char>, Json)>, key: Seq<char>, value: Json)
    ensures
        pairs_to_map(pairs.push((key, value))) == pairs_to_map(pairs).insert(key, value),
{
    assert(pairs.push((key, value)).drop_last() =~= pairs);
}

/// The map of a list holds, for the key of an entry that no later entry
/// repeats, the value of that entry.
pub proof fn lemma_pairs_to_map_value(pairs: Seq<(Seq<char>, Json)>, i: int)
    requires
        0 <= i < pairs.len(),
        forall|j: int| i < j < pairs.len() ==> (#[trigger] pairs[j]).0 != pairs[i].0,
    ensures
        pairs_to_map(pairs).contains_key(pairs[i].0),
        pairs_to_map(pairs)[pairs[i].0] == pairs[i].1,
    decreases pairs.len(),
{
    if i < pairs.len() - 1 {
        let init = pairs.drop_last();
        assert(init[i] == pairs[i]);
        assert forall|j: int| i < j < init.len() implies (#[trigger] init[j]).0 != init[i].0 by {
            assert(pairs[j].0 != pairs[i].0);
        }
        lemma_pairs_to_map_value(init, i);
        assert(pairs[pairs.len() - 1].0 != pairs[i].0);
    }
}

/// The map of a list holds no key that no entry of the list has.
pub proof fn lemma_pairs_to_map_absent(pairs: Seq<(Seq<char>, Json)>, key: Seq<char>)
    requires
        forall|j: int| 0 <= j < pairs.len() ==> (#[trigger] pairs[j]).0 != key,
    ensures
        !pairs_to_map(pairs).contains_key(key),
    decreases pairs.len(),
{
    if pairs.len() > 0 {
        let init = pairs.drop_last();
        assert forall|j: int| 0 <= j < init.len() implies (#[trigger] init[j]).0 != key by {
            assert(pairs[j].0 != key);
        }
        lemma_pairs_to_map_absent(init, key);
        assert(pairs[pairs.len() - 1].0 != key);
    }
}

/// No key occurs twice among `pairs`.
pub open spec fn distinct_pair_keys(pairs: Seq<(Seq<char>, Json)>) -> bool {
    forall|i: int, j: int| 0 <= i < j < pairs.len() ==> (#[trigger] pairs[i]).0 != (#[trigger] pairs[j]).0
}

/// In a list without repeated keys, replacing the value of an entry is
/// inserting the new value under its key.
pub proof fn lemma_pairs_to_map_update(pairs: Seq<(Seq<char>, Json)>, i: int, value: Json)
    requires
        0 <= i < pairs.len(),
        distinct_pair_keys(pairs),
    ensures
        pairs_to_map(pairs.update(i, (pairs[i].0, value))) == pairs_to_map(pairs).insert(pairs[i].0, value),
    decreases pairs.len(),
{
    let key = pairs[i].0;
    let updated = pairs.update(i, (key, value));
    if i == pairs.len() - 1 {
        assert(updated.drop_last() =~= pairs.drop_last());
        assert(pairs_to_map(updated) =~= pairs_to_map(pairs).insert(key, value));
    } else {
        let init = pairs.drop_last();
        assert(updated.drop_last() =~= init.update(i, (key, value)));
        assert(distinct_pair_keys(init)) by {
            assert forall|a: int, b: int| 0 <= a < b < init.len() implies (#[trigger] init[a]).0 != (#[trigger] init[b]).0 by {
                assert(pairs[a].0 != pairs[b].0);
            }
        }
        assert(init[i] == pairs[i]);
        lemma_pairs_to_map_update(init, i, value);
        assert(pairs[pairs.len() - 1].0 != pairs[i].0);
        assert(pairs_to_map(updated) =~= pairs_to_map(pairs).insert(key, value));
    }
}

/// Every value among `entries` satisfies the invariant of a value tree.
pub open spec fn values_wf(entries: Seq<(String, JSONValue)>) -> bool {
    forall|i: int| 0 <= i < entries.len() ==> (#[trigger] entries[i]).1.wf()
}

/// Puts `value` under `key` into the entries of an object: where the key is
/// there already, its value is replaced; else the entry is appended.
pub fn insert_entry(entries: &mut Vec<(String, JSONValue)>, key: String, value: JSONValue)
    requires
        distinct_keys(old(entries)@),
    ensures
        distinct_keys(final(entries)@),
        pairs_to_map(entries_view(final(entries)@)) == pairs_to_map(entries_view(old(entries)@)).insert(
            key@,
            value@,
        ),
        values_wf(old(entries)@) && value.wf() ==> values_wf(final(entries)@),
{
    let ghost before = entries@;
    let mut i: usize = 0;
    while i < entries.len()
        invariant
            i <= entries@.len(),
            entries@ == before,
            before == old(entries)@,
            distinct_keys(before),
            forall|k: int| 0 <= k < i ==> (#[trigger] before[k]).0@ != key@,
        decreases entries@.len() - i,
    {
        if entries[i].0 == key {
            entries.set(i, (key, value));
            proof {
                let pairs = entries_view(before);
                assert(distinct_pair_keys(pairs)) by {
                    assert forall|a: int, b: int| 0 <= a < b < pairs.len() implies (#[trigger] pairs[a]).0 != (#[trigger] pairs[b]).0 by {
                        assert(before[a].0@ != before[b].0@);
                    }
                }
                lemma_pairs_to_map_update(pairs, i as int, value@);
                assert(entries_view(entries@) =~= pairs.update(i as int, (pairs[i as int].0, value@)));
                assert forall|a: int, b: int| 0 <= a < b < entries@.len() implies (#[trigger] entries@[a]).0@ != (#[trigger] entries@[b]).0@ by {
                    assert(before[a].0@ != before[b].0@);
                }
                if values_wf(before) && value.wf() {
                    assert forall|k: int| 0 <= k < entries@.len() implies (#[trigger] entries@[k]).1.wf() by {
                        if k != i {
                            assert(before[k].1.wf());
                        }
                    }
                }
            }
            return ;
        }
        i = i + 1;
    }
    entries.push((key, value));
    proof {
        lemma_pairs_to_map_push(entries_view(before), key@, value@);
        assert(entries_view(entries@) =~= entries_view(before).push((key@, value@)));
        assert forall|a: int, b: int| 0 <= a < b < entries@.len() implies (#[trigger] entries@[a]).0@ != (#[trigger] entries@[b]).0@ by {
            if b < before.len() {
                assert(before[a].0@ != before[b].0@);
            } else {
                assert(before[a].0@ != key@);
            }
        }
        if values_wf(before) && value.wf() {
            assert forall|k: int| 0 <= k < entries@.len() implies (#[trigger] entries@[k]).1.wf() by {
                if k < before.len() {
                    assert(before[k].1.wf());
                }
            }
        }
    }
}

/// Looks `key` up among the entries of an object.
pub fn find_entry<'a>(entries: &'a Vec<(String, JSONValue)>, key: &str) -> (found: Option<&'a JSONValue>)
    ensures
        match found {
            Some(value) => {
                &&& pairs_to_map(entries_view(entries@)).contains_key(key@)
                &&& pairs_to_map(entries_view(entries@))[key@] == value@
            },
            None => !pairs_to_map(entries_view(entries@)).contains_key(key@),
        },
{
    let mut i: usize = entries.len();
    while i > 0
        invariant
            i <= entries@.len(),
            forall|k: int| i <= k < entries@.len() ==> (#[trigger] entries@[k]).0@ != key@,
        decreases i,
    {
        i = i - 1;
        if same_text(entries[i].0.as_str(), key) {
            proof {
                let pairs = entries_view(entries@);
                assert(pairs[i as int] == (entries@[i as int].0@, entries@[i as int].1@));
                assert forall|j: int| i < j < pairs.len() implies (#[trigger] pairs[j]).0 != pairs[i as int].0 by {
                    assert(entries@[j].0@ != key@);
                }
                lemma_pairs_to_map_value(pairs, i as int);
            }
            return Some(&entries[i].1);
        }
    }
    proof {
        let pairs = entries_view(entries@);
        assert forall|j: int| 0 <= j < pairs.len() implies (#[trigger] pairs[j]).0 != key@ by {
            assert(entries@[j].0@ != key@);
        }
        lemma_pairs_to_map_absent(pairs, key@);
    }
    None
}

impl JSONValue {
    /// The value that an object holds under `key`; `None` where the object
    /// has no such key, or where `self` is no object.
    pub fn get(&self, key: &str) -> (found: Option<&JSONValue>)
        ensures
            match self@ {
                Json::Dict(map) => match found {
                    Some(value) => map.contains_key(key@) && map[key@] == value@,
                    None => !map.contains_key(key@),
                },
                _ => found is None,
            },
    {
        match self {
            JSONValue::Dict(entries) => find_entry(entries, key),
            _ => None,
        }
    }
}

} // verus!
