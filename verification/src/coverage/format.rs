//! Recognising which coverage format a JSON document is in.
use vstd::prelude::*;

use crate::coverage::json::{
    any_item_marker, any_member_marker, has_coverlet_markers, lemma_any_item_mono, lemma_any_member_mono, JsonValue,
};
use crate::error::CovgateError;
use crate::text::str_equal;

verus! {

/// The coverage formats that can be read.
#[derive(Clone, Copy, Debug, PartialEq, Eq, Structural)]
pub enum CoverageFormat {
    Llvm,
    Coverlet,
    Istanbul,
}

/// The index of the first member named `key`.
pub open spec fn member_index(entries: Seq<(String, JsonValue)>, key: Seq<char>) -> Option<int>
    decreases entries.len(),
{
    if entries.len() == 0 {
        None
    } else {
        match member_index(entries.drop_last(), key) {
            Some(i) => Some(i),
            None => if entries.last().0@ == key {
                Some(entries.len() - 1)
            } else {
                None
            },
        }
    }
}

proof fn lemma_member_index(entries: Seq<(String, JsonValue)>, key: Seq<char>)
    ensures
        match member_index(entries, key) {
            Some(i) => 0 <= i < entries.len() && entries[i].0@ == key && forall|j: int|
                0 <= j < i ==> entries[j].0@ != key,
            None => forall|j: int| 0 <= j < entries.len() ==> entries[j].0@ != key,
        },
    decreases entries.len(),
{
    if entries.len() > 0 {
        lemma_member_index(entries.drop_last(), key);
        assert forall|j: int| 0 <= j < entries.len() - 1 implies entries.drop_last()[j] == entries[j] by {}
    }
}

/// The value of the first member named `key`, if any.
pub open spec fn member_of(entries: Seq<(String, JsonValue)>, key: Seq<char>) -> Option<JsonValue> {
    match member_index(entries, key) {
        Some(i) => Some(entries[i].1),
        None => None,
    }
}

/// The value of the first member named `key`.
pub fn find_member<'a>(entries: &'a Vec<(String, JsonValue)>, key: &str) -> (r: Option<&'a JsonValue>)
    ensures
        match member_of(entries@, key@) {
            Some(v) => r == Some(&v),
            None => r is None,
        },
{
    let mut i: usize = 0;
    while i < entries.len()
        invariant
            i <= entries@.len(),
            forall|j: int| 0 <= j < i ==> entries@[j].0@ != key@,
        decreases entries@.len() - i,
    {
        if str_equal(entries[i].0.as_str(), key) {
            proof {
                lemma_member_index(entries@, key@);
                match member_index(entries@, key@) {
                    Some(x) => {
                        if x < i {
                            assert(entries@[x].0@ != key@);
                        } else if x > i {
                            assert(entries@[i as int].0@ == key@);
                        }
                    },
                    None => {
                        assert(entries@[i as int].0@ == key@);
                    },
                }
            }
            return Some(&entries[i].1);
        }
        i = i + 1;
    }
    proof {
        lemma_member_index(entries@, key@);
        match member_index(entries@, key@) {
            Some(x) => {
                assert(entries@[x].0@ != key@);
            },
            None => {},
        }
    }
    None
}

/// The document is an LLVM export: an object whose `data` member is an array.
pub open spec fn is_llvm_document(v: JsonValue) -> bool {
    v matches JsonValue::Object(entries) && member_of(entries@, "data"@) matches Some(d) && d is Array
}

/// The members that every Istanbul file entry has.
pub open spec fn istanbul_keys() -> Seq<Seq<char>> {
    seq!["statementMap"@, "fnMap"@, "branchMap"@, "s"@, "f"@, "b"@]
}

/// The value is an object with every Istanbul member.
pub open spec fn is_istanbul_entry(v: JsonValue) -> bool {
    v matches JsonValue::Object(entries) && forall|k: int|
        0 <= k < 6 ==> #[trigger] member_of(entries@, istanbul_keys()[k]) is Some
}

/// The document is an object with some member that is an Istanbul file entry.
pub open spec fn is_istanbul_document(v: JsonValue) -> bool {
    v matches JsonValue::Object(entries) && exists|i: int|
        0 <= i < entries@.len() && #[trigger] is_istanbul_entry(entries@[i].1)
}

/// What the format markers of a document decide.
pub open spec fn format_of(v: JsonValue) -> Result<CoverageFormat, Seq<char>> {
    let llvm = is_llvm_document(v);
    let coverlet = has_coverlet_markers(v);
    let istanbul = is_istanbul_document(v);
    if llvm && !coverlet && !istanbul {
        Ok(CoverageFormat::Llvm)
    } else if !llvm && coverlet && !istanbul {
        Ok(CoverageFormat::Coverlet)
    } else if !llvm && !coverlet && istanbul {
        Ok(CoverageFormat::Istanbul)
    } else if !llvm && !coverlet && !istanbul {
        Err(
            "unsupported coverage format: expected LLVM JSON export, Coverlet native JSON, or Istanbul native JSON"@,
        )
    } else {
        Err("coverage format is ambiguous; multiple supported coverage format markers were detected"@)
    }
}

/// Whether some value nested in `value` is a Coverlet marker.
pub fn contains_coverlet_markers(value: &JsonValue) -> (r: bool)
    ensures
        r == has_coverlet_markers(*value),
    decreases value,
{
    proof {
        reveal_strlit("Lines");
        reveal_strlit("Branches");
    }
    match value {
        JsonValue::Object(entries) => {
            let mut i: usize = 0;
            while i < entries.len()
                invariant
                    i <= entries@.len(),
                    *value == JsonValue::Object(*entries),
                    !any_member_marker(entries@, i as int),
                decreases entries@.len() - i,
            {
                let key = entries[i].0.as_str();
                let nested = &entries[i].1;
                let lines = str_equal(key, "Lines") && matches!(nested, JsonValue::Object(_));
                let branches = str_equal(key, "Branches") && matches!(nested, JsonValue::Array(_));
                if lines || branches {
                    assert(any_member_marker(entries@, i + 1));
                    proof {
                        lemma_any_member_mono(entries@, i + 1, entries@.len() as int);
                    }
                    return true;
                }
                proof {
                    assert(*entries == value->Object_0);
                    assert(decreases_to!(*value => value->Object_0));
                    assert(decreases_to!(*entries => entries@));
                    assert(decreases_to!(entries@ => entries@[i as int]));
                    assert(decreases_to!(entries@[i as int] => entries@[i as int].1));
                }
                if contains_coverlet_markers(nested) {
                    assert(any_member_marker(entries@, i + 1));
                    proof {
                        lemma_any_member_mono(entries@, i + 1, entries@.len() as int);
                    }
                    return true;
                }
                i = i + 1;
            }
            false
        },
        JsonValue::Array(items) => {
            let mut i: usize = 0;
            while i < items.len()
                invariant
                    i <= items@.len(),
                    *value == JsonValue::Array(*items),
                    !any_item_marker(items@, i as int),
                decreases items@.len() - i,
            {
                proof {
                    assert(*items == value->Array_0);
                    assert(decreases_to!(*value => value->Array_0));
                    assert(decreases_to!(*items => items@));
                    assert(decreases_to!(items@ => items@[i as int]));
                }
                if contains_coverlet_markers(&items[i]) {
                    assert(any_item_marker(items@, i + 1));
                    proof {
                        lemma_any_item_mono(items@, i + 1, items@.len() as int);
                    }
                    return true;
                }
                i = i + 1;
            }
            false
        },
        _ => false,
    }
}

/// Whether the value is an object with every Istanbul member.
fn istanbul_entry(v: &JsonValue) -> (r: bool)
    ensures
        r == is_istanbul_entry(*v),
{
    match v {
        JsonValue::Object(entries) => {
            proof {
                reveal_strlit("statementMap");
                reveal_strlit("fnMap");
                reveal_strlit("branchMap");
                reveal_strlit("s");
                reveal_strlit("f");
                reveal_strlit("b");
            }
            let a = find_member(entries, "statementMap").is_some();
            let b = find_member(entries, "fnMap").is_some();
            let c = find_member(entries, "branchMap").is_some();
            let d = find_member(entries, "s").is_some();
            let e = find_member(entries, "f").is_some();
            let f = find_member(entries, "b").is_some();
            let all = a && b && c && d && e && f;
            proof {
                let ks = istanbul_keys();
                if all {
                    assert forall|k: int| 0 <= k < 6 implies #[trigger] member_of(entries@, ks[k]) is Some by {
                        if k == 0 {
                        } else if k == 1 {
                        } else if k == 2 {
                        } else if k == 3 {
                        } else if k == 4 {
                        } else {
                        }
                    }
                } else {
                    if !a {
                        assert(member_of(entries@, ks[0]) is None);
                    } else if !b {
                        assert(member_of(entries@, ks[1]) is None);
                    } else if !c {
                        assert(member_of(entries@, ks[2]) is None);
                    } else if !d {
                        assert(member_of(entries@, ks[3]) is None);
                    } else if !e {
                        assert(member_of(entries@, ks[4]) is None);
                    } else {
                        assert(member_of(entries@, ks[5]) is None);
                    }
                }
            }
            all
        },
        _ => false,
    }
}

/// Which format the document is in, from its markers: an LLVM export has an
/// array `data` member at the top; Coverlet has, somewhere, a `Lines` object or a
/// `Branches` array; Istanbul has a top-level member that carries every Istanbul
/// member. Fails when none or several of these are found.
pub fn detect_format(value: &JsonValue) -> (r: Result<CoverageFormat, CovgateError>)
    ensures
        match format_of(*value) {
            Ok(f) => r == Ok::<CoverageFormat, CovgateError>(f),
            Err(m) => r matches Err(e) && e.message@ == m,
        },
{
    let llvm = match value {
        JsonValue::Object(entries) => match find_member(entries, "data") {
            Some(d) => matches!(d, JsonValue::Array(_)),
            None => false,
        },
        _ => false,
    };
    proof {
        reveal_strlit("data");
    }
    let coverlet = contains_coverlet_markers(value);
    let istanbul = match value {
        JsonValue::Object(entries) => {
            let mut found = false;
            let mut i: usize = 0;
            while i < entries.len()
                invariant
                    i <= entries@.len(),
                    found == exists|j: int| 0 <= j < i && #[trigger] is_istanbul_entry(entries@[j].1),
                decreases entries@.len() - i,
            {
                if istanbul_entry(&entries[i].1) {
                    found = true;
                }
                i = i + 1;
            }
            found
        },
        _ => false,
    };
    if llvm && !coverlet && !istanbul {
        Ok(CoverageFormat::Llvm)
    } else if !llvm && coverlet && !istanbul {
        Ok(CoverageFormat::Coverlet)
    } else if !llvm && !coverlet && istanbul {
        Ok(CoverageFormat::Istanbul)
    } else if !llvm && !coverlet && !istanbul {
        Err(
            CovgateError::new(
                "unsupported coverage format: expected LLVM JSON export, Coverlet native JSON, or Istanbul native JSON",
            ),
        )
    } else {
        Err(CovgateError::new("coverage format is ambiguous; multiple supported coverage format markers were detected"))
    }
}

} // verus!
