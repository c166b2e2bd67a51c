//! A structural model of parsed JSON documents, and the resolution of
//! dotted accessor paths against them.
//!
//! The aggregation logic only ever distinguishes three shapes inside a
//! document: string scalars (the only leaves it extracts), objects (which it
//! descends into), and everything else (a dead end). [`JsonValue`] holds
//! exactly that, so path resolution is plain verified code; only the parse
//! of a text line into it is trusted.

use vstd::prelude::*;

verus! {

/// Declares `serde_json::Value` so the trusted conversion below may name it.
#[verifier::external_type_specification]
#[verifier::external_body]
pub struct ExJsonValue(serde_json::Value);

/// What the aggregation logic sees of a parsed JSON value: a string scalar,
/// an object's named entries, or an opaque other value.
pub enum JsonValue {
    Str(String),
    Object(Vec<(String, JsonValue)>),
    Other,
}

/// Mathematical model of a [`JsonValue`].
pub enum JsonModel {
    Str(Seq<char>),
    Object(Seq<(Seq<char>, JsonModel)>),
    Other,
}

/// The model of a parsed JSON value.
pub open spec fn json_model(v: JsonValue) -> JsonModel
    decreases v,
{
    match v {
        JsonValue::Str(s) => JsonModel::Str(s@),
        JsonValue::Object(entries) => JsonModel::Object(entries_model(entries@)),
        JsonValue::Other => JsonModel::Other,
    }
}

/// The models of an object's entries, in entry order.
pub open spec fn entries_model(s: Seq<(String, JsonValue)>) -> Seq<(Seq<char>, JsonModel)>
    decreases s,
{
    if s.len() == 0 {
        Seq::empty()
    } else {
        seq![(s[0].0@, json_model(s[0].1))] + entries_model(s.drop_first())
    }
}

/// Entry models line up with entries, index by index.
pub proof fn lemma_entries_model(s: Seq<(String, JsonValue)>)
    ensures
        entries_model(s).len() == s.len(),
        forall|i: int|
            0 <= i < s.len() ==> #[trigger] entries_model(s)[i] == (s[i].0@, json_model(s[i].1)),
    decreases s,
{
    if s.len() > 0 {
        lemma_entries_model(s.drop_first());
        assert(forall|i: int|
            1 <= i < s.len() ==> #[trigger] s.drop_first()[i - 1] == s[i]);
        assert(forall|i: int|
            1 <= i < s.len() ==> #[trigger] entries_model(s)[i] == entries_model(
                s.drop_first(),
            )[i - 1]);
    }
}

impl View for JsonValue {
    type V = JsonModel;

    open spec fn view(&self) -> JsonModel {
        json_model(*self)
    }
}

/// The value a JSON text denotes, in the shape the logic reads, or nothing
/// where the parse fails. Deterministic: `serde_json` maps equal texts to
/// equal documents.
pub uninterp spec fn json_of(s: Seq<char>) -> Option<JsonModel>;

/// Relies on `serde_json::from_str`: parses one line of text as a JSON
/// document, failing on malformed (or too deeply nested) input. What comes
/// back is a function of the text alone — `serde_json`'s map is ordered by
/// key, so parsing is deterministic — named by [`json_of`].
#[verifier::external_body]
pub fn parse_json(s: &str) -> (r: Option<JsonValue>)
    ensures
        match r {
            Some(v) => json_of(s@) == Some(v@),
            None => json_of(s@) is None,
        },
{
    match serde_json::from_str::<serde_json::Value>(s) {
        Ok(v) => Some(convert_json(&v)),
        Err(_) => None,
    }
}

/// Relies on the shape of `serde_json::Value`: maps a parsed document into
/// the model the logic reads, keeping strings and object entries (in the
/// key order `serde_json`'s map iterates, duplicates already collapsed) and
/// flattening every other value. Called only from [`parse_json`]'s body.
#[verifier::external_body]
fn convert_json(v: &serde_json::Value) -> JsonValue {
    match v {
        serde_json::Value::String(s) => JsonValue::Str(s.clone()),
        serde_json::Value::Object(m) => JsonValue::Object(
            m.iter().map(|(k, x)| (k.clone(), convert_json(x))).collect(),
        ),
        _ => JsonValue::Other,
    }
}

/// The value of the first entry named `key`, searching in entry order.
pub open spec fn obj_lookup(entries: Seq<(Seq<char>, JsonModel)>, key: Seq<char>) -> Option<
    JsonModel,
>
    decreases entries.len(),
{
    if entries.len() == 0 {
        None
    } else if entries[0].0 == key {
        Some(entries[0].1)
    } else {
        obj_lookup(entries.drop_first(), key)
    }
}

/// Resolution of a dotted path: walk object fields segment by segment; the
/// leaf must be a string scalar. A missing segment, a non-object in the
/// middle, or a non-string leaf all yield nothing, never an error. The
/// empty path resolves to the root if the root is itself a string scalar.
pub open spec fn resolve_spec(doc: JsonModel, path: Seq<Seq<char>>) -> Option<Seq<char>>
    decreases path.len(),
{
    if path.len() == 0 {
        match doc {
            JsonModel::Str(s) => Some(s),
            _ => None,
        }
    } else {
        match doc {
            JsonModel::Object(entries) => match obj_lookup(entries, path[0]) {
                Some(child) => resolve_spec(child, path.drop_first()),
                None => None,
            },
            _ => None,
        }
    }
}

/// Entries already passed over without a key match do not change what a
/// lookup finds.
proof fn lemma_obj_lookup_skip(entries: Seq<(Seq<char>, JsonModel)>, key: Seq<char>, i: int)
    requires
        0 <= i <= entries.len(),
        forall|j: int| 0 <= j < i ==> #[trigger] entries[j].0 != key,
    ensures
        obj_lookup(entries, key) == obj_lookup(entries.skip(i), key),
    decreases i,
{
    if i > 0 {
        assert(forall|j: int|
            0 <= j < i - 1 ==> #[trigger] entries.drop_first()[j].0 == entries[j + 1].0);
        lemma_obj_lookup_skip(entries.drop_first(), key, i - 1);
        assert(entries.drop_first().skip(i - 1) =~= entries.skip(i));
        assert(entries[0].0 != key);
    } else {
        assert(entries.skip(0) =~= entries);
    }
}

/// Resolve a dotted path, from its `pos`-th segment on, against a document.
/// Returns the raw string at the leaf, or nothing as [`resolve_spec`] says.
pub fn get_value<'a>(v: &'a JsonValue, accessor: &Vec<String>, pos: usize) -> (r: Option<
    &'a String,
>)
    requires
        pos <= accessor.len(),
    ensures
        match r {
            Some(s) => resolve_spec(v@, accessor.deep_view().skip(pos as int)) == Some(s@),
            None => resolve_spec(v@, accessor.deep_view().skip(pos as int)) is None,
        },
    decreases accessor.len() - pos,
{
    let ghost path = accessor.deep_view().skip(pos as int);
    if pos == accessor.len() {
        proof {
            assert(path.len() == 0);
        }
        match v {
            JsonValue::Str(s) => Some(s),
            _ => None,
        }
    } else {
        proof {
            assert(path[0] == accessor.deep_view()[pos as int]);
            assert(path.drop_first() =~= accessor.deep_view().skip(pos + 1));
        }
        match v {
            JsonValue::Object(entries) => {
                let ghost em = entries_model(entries@);
                proof {
                    lemma_entries_model(entries@);
                }
                let key = &accessor[pos];
                let n = entries.len();
                let mut i: usize = 0;
                while i < n
                    invariant
                        pos < accessor.len(),
                        n == entries@.len(),
                        0 <= i <= n,
                        em == entries_model(entries@),
                        em.len() == n,
                        forall|j: int|
                            0 <= j < n ==> #[trigger] em[j] == (
                                entries@[j].0@,
                                json_model(entries@[j].1),
                            ),
                        forall|j: int| 0 <= j < i ==> #[trigger] em[j].0 != key@,
                        key@ == accessor@[pos as int]@,
                        v@ == JsonModel::Object(em),
                        path == accessor.deep_view().skip(pos as int),
                        path[0] == key@,
                        path.drop_first() == accessor.deep_view().skip(pos + 1),
                    decreases n - i,
                {
                    if entries[i].0.eq(key) {
                        proof {
                            lemma_obj_lookup_skip(em, key@, i as int);
                            assert(em.skip(i as int)[0] == em[i as int]);
                            assert(obj_lookup(em, key@) == Some(em[i as int].1));
                            assert(em[i as int].1 == json_model(entries@[i as int].1));
                        }
                        return get_value(&entries[i].1, accessor, pos + 1);
                    }
                    i = i + 1;
                }
                proof {
                    lemma_obj_lookup_skip(em, key@, n as int);
                    assert(em.skip(n as int).len() == 0);
                }
                None
            },
            _ => None,
        }
    }
}

} // verus!
