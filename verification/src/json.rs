//! JSON documents as the library holds them, and their recursive merge:
//! objects compose per key, every other incoming value replaces the value
//! below it.

use vstd::prelude::*;

use crate::text::str_eq;

verus! {

/// A JSON document: numbers keep their text, and an object keeps its
/// entries in order.
#[derive(Debug)]
pub enum JsonValue {
    Null,
    Bool(bool),
    Number(String),
    Text(String),
    Array(Vec<JsonValue>),
    Object(Vec<(String, JsonValue)>),
}

/// A JSON document as a value.
pub enum JsonView {
    Null,
    Bool(bool),
    Number(Seq<char>),
    Text(Seq<char>),
    Array(Seq<JsonView>),
    Object(Seq<(Seq<char>, JsonView)>),
}

/// The value a document holds.
pub open spec fn json_view(v: JsonValue) -> JsonView
    decreases v,
{
    match v {
        JsonValue::Null => JsonView::Null,
        JsonValue::Bool(b) => JsonView::Bool(b),
        JsonValue::Number(t) => JsonView::Number(t@),
        JsonValue::Text(s) => JsonView::Text(s@),
        JsonValue::Array(vs) => JsonView::Array(
            Seq::new(vs@.len(), |i: int| if 0 <= i < vs@.len() { json_view(vs@[i]) } else { JsonView::Null }),
        ),
        JsonValue::Object(es) => JsonView::Object(
            Seq::new(
                es@.len(),
                |i: int|
                    if 0 <= i < es@.len() {
                        (es@[i].0@, json_view(es@[i].1))
                    } else {
                        (Seq::empty(), JsonView::Null)
                    },
            ),
        ),
    }
}

/// The entries of an object, as values.
pub open spec fn entries_view(es: Seq<(String, JsonValue)>) -> Seq<(Seq<char>, JsonView)> {
    Seq::new(es.len(), |i: int| (es[i].0@, json_view(es[i].1)))
}

proof fn lemma_object_view(es: Vec<(String, JsonValue)>)
    ensures
        json_view(JsonValue::Object(es)) == JsonView::Object(entries_view(es@)),
{
    let v = json_view(JsonValue::Object(es));
    let s = match v {
        JsonView::Object(s) => s,
        _ => Seq::empty(),
    };
    assert(s =~= entries_view(es@));
}

/// The first index at or after `i` of an entry named `key`, or the number
/// of entries.
pub open spec fn key_index(es: Seq<(Seq<char>, JsonView)>, key: Seq<char>, i: int) -> int
    decreases es.len() - i,
{
    if i < 0 || i >= es.len() {
        es.len() as int
    } else if es[i].0 == key {
        i
    } else {
        key_index(es, key, i + 1)
    }
}

/// `higher` merged over `base`: objects compose per key, every other value
/// replaces what is below it.
pub open spec fn merge_view(base: JsonView, higher: JsonView) -> JsonView
    decreases higher, 0int,
{
    match (base, higher) {
        (JsonView::Object(b), JsonView::Object(h)) => JsonView::Object(merge_entries(b, h, h.len() as int)),
        _ => higher,
    }
}

/// The entries `b` after the first `n` entries of `h` are merged in, in
/// order: an entry named like one already there merges into it, any other
/// is added at the end.
pub open spec fn merge_entries(b: Seq<(Seq<char>, JsonView)>, h: Seq<(Seq<char>, JsonView)>, n: int) -> Seq<
    (Seq<char>, JsonView),
>
    decreases h, n,
{
    if n <= 0 || n > h.len() {
        b
    } else {
        let s = merge_entries(b, h, n - 1);
        let idx = key_index(s, h[n - 1].0, 0);
        if 0 <= idx < s.len() {
            s.update(idx, (s[idx].0, merge_view(s[idx].1, h[n - 1].1)))
        } else {
            s.push(h[n - 1])
        }
    }
}

/// Merge `higher` over `base`: objects compose per key (recursively); every
/// other incoming value replaces the value below it.
pub fn deep_merge(base: &mut JsonValue, higher: JsonValue)
    ensures
        json_view(*final(base)) == merge_view(json_view(*old(base)), json_view(higher)),
    decreases higher,
{
    let ghost old_base = json_view(*base);
    let ghost whole = higher;
    match higher {
        JsonValue::Object(hs) => {
            let ghost orig = hs;
            proof {
                lemma_object_view(orig);
            }
            match base {
                JsonValue::Object(bs) => {
                    let ghost b0 = entries_view(bs@);
                    proof {
                        lemma_object_view(*bs);
                    }
                    let mut rest = hs;
                    let n = rest.len();
                    let mut i: usize = 0;
                    while i < n
                        invariant
                            n == orig@.len(),
                            i <= n,
                            rest@ == orig@.skip(i as int),
                            entries_view(bs@) == merge_entries(b0, entries_view(orig@), i as int),
                            whole == JsonValue::Object(orig),
                            whole == higher,
                        decreases n - i,
                    {
                        let (k, v) = rest.remove(0);
                        proof {
                            assert(orig@.skip(i as int)[0] == orig@[i as int]);
                            assert(rest@ =~= orig@.skip(i + 1));
                        }
                        let mut idx: usize = 0;
                        while idx < bs.len() && !str_eq(bs[idx].0.as_str(), k.as_str())
                            invariant
                                idx <= bs@.len(),
                                key_index(entries_view(bs@), k@, 0) == key_index(entries_view(bs@), k@, idx as int),
                            decreases bs@.len() - idx,
                        {
                            idx += 1;
                        }
                        let ghost s = entries_view(bs@);
                        proof {
                            assert(entries_view(orig@)[i as int] == (k@, json_view(v)));
                        }
                        if idx < bs.len() {
                            let ghost before = bs@;
                            proof {
                                assert(v == orig@[i as int].1);
                                assert(whole->Object_0 == orig);
                                assert(decreases_to!(whole => whole->Object_0));
                                assert(decreases_to!(orig => orig@));
                                assert(decreases_to!(orig@ => orig@[i as int]));
                                assert(decreases_to!(orig@[i as int] => orig@[i as int].1));
                                assert(decreases_to!(whole => v));
                            }
                            deep_merge(&mut bs[idx].1, v);
                            proof {
                                assert(entries_view(bs@) =~= s.update(idx as int, (s[idx as int].0, merge_view(s[idx as int].1, json_view(v)))));
                            }
                        } else {
                            bs.push((k, v));
                            proof {
                                assert(entries_view(bs@) =~= s.push((k@, json_view(v))));
                            }
                        }
                        i += 1;
                    }
                    proof {
                        lemma_object_view(*bs);
                    }
                },
                _ => {
                    *base = JsonValue::Object(hs);
                },
            }
        },
        other => {
            *base = other;
        },
    }
}

// ----------------------------------------------------------------------
// Parsing
// ----------------------------------------------------------------------

#[verifier::external_type_specification]
#[verifier::external_body]
pub struct ExSerdeJsonValue(serde_json::Value);

/// A `serde_json::Value` in the library's model, variant for variant:
/// numbers as the text `serde_json::Number::to_string` gives, object
/// entries in the order `serde_json::Map::iter` walks them. Nothing is
/// stated of the result: it is only ever reached through
/// `parse_json_document`, whose contract names the whole parse.
#[verifier::external_body]
fn value_to_model(v: &serde_json::Value) -> JsonValue {
    match v {
        serde_json::Value::Null => JsonValue::Null,
        serde_json::Value::Bool(b) => JsonValue::Bool(*b),
        serde_json::Value::Number(n) => JsonValue::Number(n.to_string()),
        serde_json::Value::String(s) => JsonValue::Text(s.clone()),
        serde_json::Value::Array(items) => JsonValue::Array(items.iter().map(value_to_model).collect()),
        serde_json::Value::Object(map) => JsonValue::Object(map.iter().map(|(k, v)| (k.clone(), value_to_model(v))).collect()),
    }
}

/// What `serde_json::from_str::<serde_json::Value>` makes of `text`, as a
/// document of the library's model: `None` where it refuses the text.
pub uninterp spec fn json_document(text: Seq<char>) -> Option<JsonView>;

/// `text` parsed as one JSON document through
/// `serde_json::from_str::<serde_json::Value>`, then taken into the
/// library's model; `None` where serde_json refuses it.
#[verifier::external_body]
fn parse_json_document(text: &str) -> (r: Option<JsonValue>)
    ensures
        match r {
            Some(v) => json_document(text@) == Some(json_view(v)),
            None => json_document(text@) is None,
        },
{
    serde_json::from_str::<serde_json::Value>(text).ok().map(|v| value_to_model(&v))
}

/// The first of `candidates` that is a JSON document, as that document.
pub open spec fn first_document(candidates: Seq<Seq<char>>) -> Option<JsonView>
    decreases candidates.len(),
{
    if candidates.len() == 0 {
        None
    } else {
        match json_document(candidates[0]) {
            Some(d) => Some(d),
            None => first_document(candidates.drop_first()),
        }
    }
}

proof fn lemma_first_document(candidates: Seq<Seq<char>>, i: int)
    requires
        0 <= i <= candidates.len(),
        forall|j: int| 0 <= j < i ==> json_document(#[trigger] candidates[j]) is None,
    ensures
        first_document(candidates) == first_document(candidates.skip(i)),
    decreases i,
{
    if i > 0 {
        lemma_first_document(candidates, i - 1);
        let rest = candidates.skip(i - 1);
        assert(rest[0] == candidates[i - 1]);
        assert(rest.drop_first() =~= candidates.skip(i));
    }
    assert(candidates.skip(0) =~= candidates);
}

/// The first config candidate that parses as JSON: every earlier one is
/// refused, and `None` only when all are.
pub fn first_config_document(candidates: &[String]) -> (r: Option<JsonValue>)
    ensures
        r matches Some(v) ==> exists|i: int|
            0 <= i < candidates@.len() && json_document(#[trigger] candidates@[i]@) == Some(json_view(v)) && forall|
                j: int,
            | 0 <= j < i ==> json_document(candidates@[j]@) is None,
        r is None <==> forall|j: int| 0 <= j < candidates@.len() ==> json_document(#[trigger] candidates@[j]@) is None,
        match r {
            Some(v) => first_document(candidates@.map_values(|s: String| s@)) == Some(json_view(v)),
            None => first_document(candidates@.map_values(|s: String| s@)) is None,
        },
{
    let ghost texts = candidates@.map_values(|s: String| s@);
    let mut i: usize = 0;
    while i < candidates.len()
        invariant
            i <= candidates@.len(),
            texts == candidates@.map_values(|s: String| s@),
            forall|j: int| 0 <= j < i ==> json_document(#[trigger] candidates@[j]@) is None,
        decreases candidates@.len() - i,
    {
        let parsed = parse_json_document(candidates[i].as_str());
        if let Some(v) = parsed {
            proof {
                assert forall|j: int| 0 <= j < i implies json_document(#[trigger] texts[j]) is None by {
                    assert(texts[j] == candidates@[j]@);
                }
                lemma_first_document(texts, i as int);
                assert(texts.skip(i as int)[0] == candidates@[i as int]@);
            }
            return Some(v);
        }
        i += 1;
    }
    proof {
        assert forall|j: int| 0 <= j < texts.len() implies json_document(#[trigger] texts[j]) is None by {
            assert(texts[j] == candidates@[j]@);
        }
        lemma_first_document(texts, texts.len() as int);
        assert(texts.skip(texts.len() as int).len() == 0);
    }
    None
}

} // verus!
