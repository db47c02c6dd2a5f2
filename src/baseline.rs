//! The persisted baseline: a fingerprint table as a JSON document whose single
//! field `hashes` maps each path to its digest.
use vstd::prelude::*;
use crate::snapshot::{lemma_snapshot_deterministic, paths_distinct, snapshot_of};
use crate::table::{FingerprintTable, keys_distinct, map_of, pairs_view};

verus! {

/// serde_json's error, carried through opaquely and mapped to a format error.
#[verifier::external_type_specification]
#[verifier::external_body]
pub struct ExJsonError(serde_json::Error);

/// Why a baseline could not be loaded or written.
#[derive(Debug, Clone, Copy, PartialEq, Eq, Structural)]
pub enum BaselineError {
    /// No baseline has been recorded yet.
    NotFound,
    /// The baseline exists but could not be read or written.
    Unreadable,
    /// The baseline text is not a document of the expected shape.
    Format,
}

/// How reading the baseline's text failed.
#[derive(Debug, Clone, Copy, PartialEq, Eq, Structural)]
pub enum ReadFailure {
    /// There is no file at the baseline's location.
    NotFound,
    /// The file exists but reading it failed.
    Other,
}

/// The name of the document's single field.
pub open spec fn hashes_field() -> Seq<char> {
    seq!['h', 'a', 's', 'h', 'e', 's']
}

/// The pretty-printed JSON text of an object with one field, `field`, whose
/// value is an object holding the given mapping.
pub uninterp spec fn json_pretty_of(field: Seq<char>, entries: Map<Seq<char>, Seq<char>>) -> Seq<
    char,
>;

/// What a JSON text holds when it is an object: its members in key order,
/// each name with the JSON text of its value.
pub uninterp spec fn json_object_members(text: Seq<char>) -> Option<Seq<(Seq<char>, Seq<char>)>>;

/// What a JSON text holds when it is an object whose every value is a string:
/// its pairs in key order.
pub uninterp spec fn json_string_map(text: Seq<char>) -> Option<Seq<(Seq<char>, Seq<char>)>>;

/// Relies on `serde_json::to_string_pretty` applied to a `BTreeMap` of
/// `BTreeMap`s of strings: it fails only on a non-string key or a failing
/// `Serialize` impl, so here it succeeds; with distinct keys the text depends
/// on the mapping alone, as a `BTreeMap` yields its keys in sorted order.
#[verifier::external_body]
fn to_json_pretty(field: &String, entries: &Vec<(String, String)>) -> (r: Result<
    String,
    serde_json::Error,
>)
    requires
        keys_distinct(pairs_view(entries@)),
    ensures
        r is Ok,
        r matches Ok(s) ==> s@ == json_pretty_of(field@, map_of(pairs_view(entries@))),
{
    let inner: std::collections::BTreeMap<&String, &String> = entries.iter().map(|e| (&e.0, &e.1)).collect();
    let doc: std::collections::BTreeMap<&String, _> = std::iter::once((field, inner)).collect();
    serde_json::to_string_pretty(&doc)
}

/// Relies on `serde_json::from_str` into a `BTreeMap<String,
/// Box<serde_json::value::RawValue>>`: it succeeds exactly on JSON objects,
/// whose members it hands back in key order, each value as its JSON text.
#[verifier::external_body]
fn parse_json_object(text: &str) -> (r: Result<Vec<(String, String)>, serde_json::Error>)
    ensures
        match r {
            Ok(members) => json_object_members(text@) == Some(pairs_view(members@)),
            Err(_) => json_object_members(text@) is None,
        },
{
    let doc: std::collections::BTreeMap<String, Box<serde_json::value::RawValue>> =
        serde_json::from_str(text)?;
    Ok(doc.into_iter().map(|(k, v)| (k, v.get().to_string())).collect())
}

/// Relies on `serde_json::from_str` into a `BTreeMap<String, String>`: it
/// succeeds exactly on JSON objects of strings, whose pairs it hands back in
/// key order.
#[verifier::external_body]
fn parse_json_string_map(text: &str) -> (r: Result<Vec<(String, String)>, serde_json::Error>)
    ensures
        match r {
            Ok(pairs) => json_string_map(text@) == Some(pairs_view(pairs@)),
            Err(_) => json_string_map(text@) is None,
        },
{
    let map: std::collections::BTreeMap<String, String> = serde_json::from_str(text)?;
    Ok(map.into_iter().collect())
}

/// The text of a baseline that records the mapping `table`.
pub open spec fn baseline_text(table: Map<Seq<char>, Seq<char>>) -> Seq<char> {
    json_pretty_of(hashes_field(), table)
}

/// `doc` has a field `name`, and `i` is the first position that holds one.
pub open spec fn first_field_at(
    doc: Seq<(Seq<char>, Seq<char>)>,
    name: Seq<char>,
    i: int,
) -> bool {
    0 <= i < doc.len() && doc[i].0 == name && forall|j: int| 0 <= j < i ==> doc[j].0 != name
}

/// The value text of the first member `name` of a document, if it has one.
pub open spec fn field_of(doc: Seq<(Seq<char>, Seq<char>)>, name: Seq<char>) -> Option<Seq<char>> {
    if exists|i: int| first_field_at(doc, name, i) {
        Some(doc[choose|i: int| first_field_at(doc, name, i)].1)
    } else {
        None
    }
}

/// The mapping that a baseline text records, or `None` where the text is not a
/// baseline document.
pub open spec fn baseline_table_of(text: Seq<char>) -> Option<Map<Seq<char>, Seq<char>>> {
    match json_object_members(text) {
        Some(doc) => match field_of(doc, hashes_field()) {
            Some(value) => match json_string_map(value) {
                Some(pairs) => Some(map_of(pairs)),
                None => None,
            },
            None => None,
        },
        None => None,
    }
}

/// The baseline text of a table. Encoding always succeeds; the `Result`
/// leaves room for the serializer's error type.
pub fn encode_baseline(table: &FingerprintTable) -> (r: Result<String, BaselineError>)
    requires
        table.wf(),
    ensures
        r matches Ok(s) && s@ == baseline_text(table@),
{
    let entries = table.entries_list();
    let field = String::from_str("hashes");
    proof {
        reveal_strlit("hashes");
        assert(field@ =~= hashes_field());
        assert(pairs_view(entries@) == table.entries_view());
    }
    match to_json_pretty(&field, &entries) {
        Ok(s) => Ok(s),
        Err(_) => Err(BaselineError::Format),
    }
}

/// Reads a table back from baseline text: a format error unless the text is a
/// JSON object with a member `hashes` whose value is an object of strings.
/// Other members are ignored.
pub fn decode_baseline(text: &str) -> (r: Result<FingerprintTable, BaselineError>)
    ensures
        match baseline_table_of(text@) {
            Some(m) => r matches Ok(t) && t.wf() && t@ == m,
            None => r == Err::<FingerprintTable, BaselineError>(BaselineError::Format),
        },
{
    let doc = match parse_json_object(text) {
        Ok(doc) => doc,
        Err(_) => {
            return Err(BaselineError::Format);
        },
    };
    let ghost dv = pairs_view(doc@);
    let field = String::from_str("hashes");
    proof {
        reveal_strlit("hashes");
        assert(field@ =~= hashes_field());
    }
    let mut i: usize = 0;
    while i < doc.len() && !(doc[i].0 == field)
        invariant
            i <= doc.len(),
            dv == pairs_view(doc@),
            field@ == hashes_field(),
            forall|j: int| 0 <= j < i ==> (#[trigger] dv[j]).0 != hashes_field(),
        decreases doc.len() - i,
    {
        i = i + 1;
    }
    if i == doc.len() {
        proof {
            assert forall|k: int| !first_field_at(dv, hashes_field(), k) by {
                if 0 <= k < dv.len() {
                    assert(dv[k].0 != hashes_field());
                }
            }
        }
        return Err(BaselineError::Format);
    }
    proof {
        assert(first_field_at(dv, hashes_field(), i as int));
        let c = choose|c: int| first_field_at(dv, hashes_field(), c);
        if c < i {
            assert(dv[c].0 != hashes_field());
        }
        if c > i {
            assert(dv[i as int].0 != hashes_field());
        }
        assert(field_of(dv, hashes_field()) == Some(dv[i as int].1));
    }
    let group = match parse_json_string_map(doc[i].1.as_str()) {
        Ok(group) => group,
        Err(_) => {
            return Err(BaselineError::Format);
        },
    };
    let ghost pairs = pairs_view(group@);
    let mut table = FingerprintTable::new();
    let mut k: usize = 0;
    while k < group.len()
        invariant
            k <= group.len(),
            pairs == pairs_view(group@),
            table.wf(),
            table@ == map_of(pairs.take(k as int)),
        decreases group.len() - k,
    {
        let path = group[k].0.clone();
        let digest = group[k].1.clone();
        table.insert(path, digest);
        proof {
            assert(pairs.take(k + 1).drop_last() =~= pairs.take(k as int));
        }
        k = k + 1;
    }
    assert(pairs.take(k as int) =~= pairs);
    Ok(table)
}

/// Decides what loading the baseline gives from the outcome of reading its
/// text: a missing baseline is its own condition, never an empty table.
pub fn baseline_from_read(read: Result<String, ReadFailure>) -> (r: Result<FingerprintTable, BaselineError>)
    ensures
        match read {
            Err(ReadFailure::NotFound) => r == Err::<FingerprintTable, BaselineError>(
                BaselineError::NotFound,
            ),
            Err(ReadFailure::Other) => r == Err::<FingerprintTable, BaselineError>(
                BaselineError::Unreadable,
            ),
            Ok(text) => match baseline_table_of(text@) {
                Some(m) => r matches Ok(t) && t.wf() && t@ == m,
                None => r == Err::<FingerprintTable, BaselineError>(BaselineError::Format),
            },
        },
{
    match read {
        Err(ReadFailure::NotFound) => Err(BaselineError::NotFound),
        Err(ReadFailure::Other) => Err(BaselineError::Unreadable),
        Ok(text) => decode_baseline(text.as_str()),
    }
}

/// Writing the baseline of two walks of an unchanged tree gives the same text,
/// byte for byte, whatever order each walk visited the files in.
pub proof fn lemma_update_idempotent(
    first: Seq<(Seq<char>, Seq<u8>)>,
    second: Seq<(Seq<char>, Seq<u8>)>,
)
    requires
        paths_distinct(first),
        paths_distinct(second),
        first.to_set() == second.to_set(),
    ensures
        baseline_text(snapshot_of(first)) == baseline_text(snapshot_of(second)),
{
    lemma_snapshot_deterministic(first, second);
}

} // verus!

