//! A JSON document as the coverage parsers read it.
use vstd::prelude::*;

verus! {

/// A JSON number: a non-negative integer, a negative integer, or a number with a
/// fraction or exponent (whose value the parsers never read).
#[derive(Clone, Copy, Debug, PartialEq, Eq, Structural)]
pub enum JsonNumber {
    PosInt(u64),
    NegInt(i64),
    Float,
}

/// A JSON value. Object members keep the order in which the document's map yields
/// them.
#[derive(Debug, PartialEq, Eq)]
pub enum JsonValue {
    Null,
    Bool(bool),
    Number(JsonNumber),
    Text(String),
    Array(Vec<JsonValue>),
    Object(Vec<(String, JsonValue)>),
}

/// Some value nested in `v` (or `v` itself) is a Coverlet marker: a `Lines` member
/// holding an object, or a `Branches` member holding an array.
pub open spec fn has_coverlet_markers(v: JsonValue) -> bool
    decreases v, 0int,
{
    match v {
        JsonValue::Object(entries) => any_member_marker(entries@, entries@.len() as int),
        JsonValue::Array(items) => any_item_marker(items@, items@.len() as int),
        _ => false,
    }
}

/// Some of the first `n` members is a Coverlet marker or holds one.
pub open spec fn any_member_marker(entries: Seq<(String, JsonValue)>, n: int) -> bool
    decreases entries, n,
{
    if n <= 0 || n > entries.len() {
        false
    } else {
        any_member_marker(entries, n - 1) || (entries[n - 1].0@ == "Lines"@ && entries[n - 1].1 is Object) || (
        entries[n - 1].0@ == "Branches"@ && entries[n - 1].1 is Array) || has_coverlet_markers(entries[n - 1].1)
    }
}

/// Some of the first `n` items holds a Coverlet marker.
pub open spec fn any_item_marker(items: Seq<JsonValue>, n: int) -> bool
    decreases items, n,
{
    if n <= 0 || n > items.len() {
        false
    } else {
        any_item_marker(items, n - 1) || has_coverlet_markers(items[n - 1])
    }
}

/// A marker among the first `n` members is one among the first `m >= n`.
pub proof fn lemma_any_member_mono(entries: Seq<(String, JsonValue)>, n: int, m: int)
    requires
        0 <= n <= m <= entries.len(),
        any_member_marker(entries, n),
    ensures
        any_member_marker(entries, m),
    decreases m - n,
{
    if n < m {
        lemma_any_member_mono(entries, n, m - 1);
    }
}

/// A marker among the first `n` items is one among the first `m >= n`.
pub proof fn lemma_any_item_mono(items: Seq<JsonValue>, n: int, m: int)
    requires
        0 <= n <= m <= items.len(),
        any_item_marker(items, n),
    ensures
        any_item_marker(items, m),
    decreases m - n,
{
    if n < m {
        lemma_any_item_mono(items, n, m - 1);
    }
}

} // verus!
