//! The persisted form of the log: a JSON array with one object for each
//! entry, which holds the entry's `timestamp` as a number and its `query` as
//! a string.

use crate::entry::{views_of, Entry, QueryLog};
use crate::json::{
    array, elements, field, json_of, jsons_of, member, members_of, number, object, string, text,
    unsigned, Json,
};
use vstd::prelude::*;

verus! {

/// The entry that a JSON value stands for: the value is an object whose
/// member `timestamp` is an integer of zero or more that fits 64 bits, and
/// whose member `query` is a string. Other members are ignored. Any other
/// value stands for no entry.
pub open spec fn decoded_entry(item: Json) -> Option<Entry> {
    match item {
        Json::Object(members) => match (member(members, "timestamp"@), member(members, "query"@)) {
            (Some(Json::Unsigned(timestamp)), Some(Json::Text(query))) => Some(
                Entry { timestamp, query },
            ),
            _ => None,
        },
        _ => None,
    }
}

/// The entries that a JSON document stands for, in the order of the
/// document: the document is an array, and each element stands for an entry.
/// Any other document stands for nothing.
pub open spec fn decoded(doc: Json) -> Option<Seq<Entry>> {
    match doc {
        Json::Array(items) => if forall|i: int|
            0 <= i < items.len() ==> decoded_entry(#[trigger] items[i]) is Some {
            Some(items.map_values(|item: Json| decoded_entry(item).unwrap()))
        } else {
            None
        },
        _ => None,
    }
}

/// The JSON object that stands for `e`: its `timestamp`, then its `query`.
pub open spec fn encoded_entry(e: Entry) -> Json {
    Json::Object(seq![("timestamp"@, Json::Unsigned(e.timestamp)), ("query"@, Json::Text(e.query))])
}

/// The JSON document that stands for the entries `s`, in the same order.
pub open spec fn encoded(s: Seq<Entry>) -> Json {
    Json::Array(s.map_values(|e: Entry| encoded_entry(e)))
}

/// The object written for an entry stands for that entry.
pub proof fn lemma_decoded_encoded_entry(e: Entry)
    ensures
        decoded_entry(encoded_entry(e)) == Some(e),
{
    reveal_strlit("timestamp");
    reveal_strlit("query");
    let members = encoded_entry(e)->Object_0;
    assert("timestamp"@.len() != "query"@.len());
    assert(member(members, "timestamp"@) == Some(Json::Unsigned(e.timestamp)));
    assert(members.skip(1)[0] == members[1]);
    assert(member(members.skip(1), "query"@) == Some(Json::Text(e.query)));
    assert(member(members, "query"@) == Some(Json::Text(e.query)));
}

/// The document written for a sequence of entries stands for those entries:
/// nothing is lost or reordered between writing and reading.
pub proof fn lemma_decoded_encoded(s: Seq<Entry>)
    ensures
        decoded(encoded(s)) == Some(s),
{
    let items = s.map_values(|e: Entry| encoded_entry(e));
    assert forall|i: int| 0 <= i < items.len() implies decoded_entry(#[trigger] items[i])
        == Some(s[i]) by {
        lemma_decoded_encoded_entry(s[i]);
    }
    assert(items.map_values(|item: Json| decoded_entry(item).unwrap()) =~= s);
}

/// Reads one entry from a JSON value.
pub fn decode_entry(item: &serde_json::Value) -> (r: Option<QueryLog>)
    ensures
        match r {
            Some(entry) => decoded_entry(json_of(*item)) == Some(entry@),
            None => decoded_entry(json_of(*item)) is None,
        },
{
    let timestamp = match field(item, "timestamp") {
        Some(found) => unsigned(found),
        None => None,
    };
    let query = match field(item, "query") {
        Some(found) => text(found),
        None => None,
    };
    match (timestamp, query) {
        (Some(timestamp), Some(query)) => Some(QueryLog::new(timestamp, query)),
        _ => None,
    }
}

/// Reads the entries of a JSON document, in the order of the document.
pub fn decode(doc: &serde_json::Value) -> (r: Option<Vec<QueryLog>>)
    ensures
        match r {
            Some(entries) => decoded(json_of(*doc)) == Some(views_of(entries@)),
            None => decoded(json_of(*doc)) is None,
        },
{
    let items = match elements(doc) {
        Some(items) => items,
        None => {
            return None;
        },
    };
    let ghost jsons = jsons_of(items@);
    let mut entries: Vec<QueryLog> = Vec::new();
    let mut i: usize = 0;
    while i < items.len()
        invariant
            i <= items.len(),
            jsons == jsons_of(items@),
            json_of(*doc) == Json::Array(jsons),
            entries.len() == i,
            forall|j: int|
                0 <= j < i ==> decoded_entry(#[trigger] jsons[j]) == Some(views_of(entries@)[j]),
        decreases items.len() - i,
    {
        match decode_entry(&items[i]) {
            Some(entry) => {
                entries.push(entry);
            },
            None => {
                assert(decoded_entry(jsons[i as int]) is None);
                return None;
            },
        }
        i += 1;
    }
    proof {
        assert(jsons.map_values(|item: Json| decoded_entry(item).unwrap()) =~= views_of(
            entries@,
        ));
    }
    Some(entries)
}

/// Writes one entry as a JSON value.
pub fn encode_entry(entry: &QueryLog) -> (v: serde_json::Value)
    ensures
        json_of(v) == encoded_entry(entry@),
{
    let mut fields: Vec<(String, serde_json::Value)> = Vec::new();
    fields.push(("timestamp".to_owned(), number(entry.timestamp)));
    fields.push(("query".to_owned(), string(entry.query.clone())));
    proof {
        reveal_strlit("timestamp");
        reveal_strlit("query");
        assert("timestamp"@.len() != "query"@.len());
        assert(members_of(fields@) =~= encoded_entry(entry@)->Object_0);
    }
    object(fields)
}

/// Writes entries as a JSON document, in the same order.
pub fn encode(entries: &Vec<QueryLog>) -> (v: serde_json::Value)
    ensures
        json_of(v) == encoded(views_of(entries@)),
{
    let mut items: Vec<serde_json::Value> = Vec::new();
    let mut i: usize = 0;
    while i < entries.len()
        invariant
            i <= entries.len(),
            items.len() == i,
            forall|j: int|
                0 <= j < i ==> #[trigger] jsons_of(items@)[j] == encoded_entry(
                    views_of(entries@)[j],
                ),
        decreases entries.len() - i,
    {
        let ghost before = items@;
        items.push(encode_entry(&entries[i]));
        proof {
            assert forall|j: int| 0 <= j <= i implies #[trigger] jsons_of(items@)[j]
                == encoded_entry(views_of(entries@)[j]) by {
                if j < i {
                    assert(items@[j] == before[j]);
                    assert(jsons_of(before)[j] == encoded_entry(views_of(entries@)[j]));
                }
            }
        }
        i += 1;
    }
    proof {
        assert(jsons_of(items@) =~= views_of(entries@).map_values(|e: Entry| encoded_entry(e)));
    }
    array(items)
}

} // verus!
