//! Coverlet native JSON: per assembly, file, class and method, the hits of each
//! line and branch.
use vstd::prelude::*;

use crate::coverage::format::{find_member, member_of};
use crate::coverage::istanbul::{forward_slashes, slashes};
use crate::coverage::json::{JsonNumber, JsonValue};
use crate::coverage::llvm_report::count_true;
use crate::coverage::path::{lexical_normalize, lexical_normalized, relativize_absolute_path, relativized};
use crate::coverage::report::{
    count_covered_ops, count_ops, is_block, lemma_block_counts, lemma_count_ops_add, lemma_put_counts,
    lists_report_totals, lists_table, make_opportunity, push_metric_totals, totals_count_ops, Totals, TotalsTable,
};
use crate::model::{
    opportunity_views, CoverageOpportunity, CoverageReport, FileTotals, FileTotalsList, MetricKind, OpportunityKind,
    OpportunityView,
};
use crate::sorted::{
    lemma_lists_insert, lemma_lists_update, lemma_listing, lemma_listing_exists, listing, lists_by, strict_total,
};
use crate::text::{chars_of, is_prefix, parse_u32, parse_u32_spec, string_from_chars};

verus! {

/// `s` without its leading slashes.
pub open spec fn trim_leading_slashes(s: Seq<char>) -> Seq<char>
    decreases s.len(),
{
    if s.len() > 0 && s[0] == '/' {
        trim_leading_slashes(s.drop_first())
    } else {
        s
    }
}

/// The path of a file in a Coverlet report: relative to the repository root when
/// it starts with it (as text), else as made relative to the root.
pub open spec fn coverlet_path(value: Seq<char>, root: Seq<char>) -> Seq<char> {
    let nv = slashes(value);
    let rs = slashes(root);
    let with_sep = rs.push('/');
    if is_prefix(with_sep, nv) {
        lexical_normalized(trim_leading_slashes(nv.subrange(with_sep.len() as int, nv.len() as int)))
    } else if is_prefix(rs, nv) {
        lexical_normalized(trim_leading_slashes(nv.subrange(rs.len() as int, nv.len() as int)))
    } else {
        relativized(nv, root)
    }
}

/// `v[from..]` without its leading slashes.
fn trimmed_rest(v: &Vec<char>, from: usize) -> (r: String)
    requires
        from <= v@.len(),
    ensures
        r@ == trim_leading_slashes(v@.subrange(from as int, v@.len() as int)),
{
    let mut i = from;
    while i < v.len() && v[i] == '/'
        invariant
            from <= i <= v@.len(),
            trim_leading_slashes(v@.subrange(from as int, v@.len() as int)) == trim_leading_slashes(
                v@.subrange(i as int, v@.len() as int),
            ),
        decreases v@.len() - i,
    {
        assert(v@.subrange(i as int, v@.len() as int).drop_first() =~= v@.subrange(i + 1, v@.len() as int));
        i = i + 1;
    }
    let rest = crate::text::slice_chars(v.as_slice(), i, v.len());
    string_from_chars(rest.as_slice())
}

/// The path of a file in a Coverlet report.
pub fn normalize_coverlet_path(value: &str, repo_root: &str) -> (r: String)
    ensures
        r@ == coverlet_path(value@, repo_root@),
{
    let nv = forward_slashes(value);
    let rs = forward_slashes(repo_root);
    let mut with_sep = forward_slashes(repo_root);
    with_sep.push('/');
    assert(nv@.subrange(0, nv@.len() as int) =~= nv@);
    if crate::text::matches_at(nv.as_slice(), 0, with_sep.as_slice()) {
        let t = trimmed_rest(&nv, with_sep.len());
        return lexical_normalize(t.as_str());
    }
    if crate::text::matches_at(nv.as_slice(), 0, rs.as_slice()) {
        let t = trimmed_rest(&nv, rs.len());
        return lexical_normalize(t.as_str());
    }
    let ns = string_from_chars(nv.as_slice());
    relativize_absolute_path(ns.as_str(), repo_root)
}

/// The value as a non-negative 64-bit count, when it is one.
pub open spec fn json_u64(v: JsonValue) -> Option<u64> {
    match v {
        JsonValue::Number(JsonNumber::PosInt(n)) => Some(n),
        _ => None,
    }
}

/// The value as a line number, when it is one.
pub open spec fn json_u32(v: JsonValue) -> Option<u32> {
    match v {
        JsonValue::Number(JsonNumber::PosInt(n)) => if n <= u32::MAX {
            Some(n as u32)
        } else {
            None
        },
        _ => None,
    }
}

/// The lines of the first `k` members of a `Lines` object: each key read as a line
/// number and each value as a hit count; none if any of them is not.
pub open spec fn decode_lines_upto(entries: Seq<(String, JsonValue)>, k: nat) -> Option<Seq<(u32, u64)>>
    decreases k,
{
    if k == 0 {
        Some(seq![])
    } else {
        match decode_lines_upto(entries, (k - 1) as nat) {
            None => None,
            Some(prev) => match (parse_u32_spec(entries[k - 1].0@), json_u64(entries[k - 1].1)) {
                (Some(l), Some(h)) => Some(prev.push((l, h))),
                _ => None,
            },
        }
    }
}

/// A `Lines` value: an object of line numbers and hit counts.
pub open spec fn decode_lines(v: JsonValue) -> Option<Seq<(u32, u64)>> {
    match v {
        JsonValue::Object(entries) => decode_lines_upto(entries@, entries@.len()),
        _ => None,
    }
}

/// A branch record: an object with a `Line` and a `Hits`, or the pair of them.
pub open spec fn decode_branch(v: JsonValue) -> Option<(u32, u64)> {
    match v {
        JsonValue::Object(entries) => match (member_of(entries@, "Line"@), member_of(entries@, "Hits"@)) {
            (Some(l), Some(h)) => match (json_u32(l), json_u64(h)) {
                (Some(a), Some(b)) => Some((a, b)),
                _ => None,
            },
            _ => None,
        },
        JsonValue::Array(items) => if items@.len() == 2 {
            match (json_u32(items@[0]), json_u64(items@[1])) {
                (Some(a), Some(b)) => Some((a, b)),
                _ => None,
            }
        } else {
            None
        },
        _ => None,
    }
}

/// The first `k` branch records; none if any of them is not one.
pub open spec fn decode_branches_upto(items: Seq<JsonValue>, k: nat) -> Option<Seq<(u32, u64)>>
    decreases k,
{
    if k == 0 {
        Some(seq![])
    } else {
        match decode_branches_upto(items, (k - 1) as nat) {
            None => None,
            Some(prev) => match decode_branch(items[k - 1]) {
                Some(b) => Some(prev.push(b)),
                None => None,
            },
        }
    }
}

/// A `Branches` value: an array of branch records.
pub open spec fn decode_branches(v: JsonValue) -> Option<Seq<(u32, u64)>> {
    match v {
        JsonValue::Array(items) => decode_branches_upto(items@, items@.len()),
        _ => None,
    }
}

/// A method record: an object with `Lines` and, optionally, `Branches`, or the
/// array of those; none when it is not one.
pub open spec fn decode_method(v: JsonValue) -> Option<(Seq<(u32, u64)>, Seq<(u32, u64)>)> {
    match v {
        JsonValue::Object(entries) => match member_of(entries@, "Lines"@) {
            None => None,
            Some(lv) => match decode_lines(lv) {
                None => None,
                Some(lines) => match member_of(entries@, "Branches"@) {
                    None => Some((lines, seq![])),
                    Some(bv) => match decode_branches(bv) {
                        None => None,
                        Some(bs) => Some((lines, bs)),
                    },
                },
            },
        },
        JsonValue::Array(items) => if items@.len() == 1 || items@.len() == 2 {
            match decode_lines(items@[0]) {
                None => None,
                Some(lines) => if items@.len() == 1 {
                    Some((lines, seq![]))
                } else {
                    match decode_branches(items@[1]) {
                        None => None,
                        Some(bs) => Some((lines, bs)),
                    }
                },
            }
        } else {
            None
        },
        _ => None,
    }
}

fn as_u64(v: &JsonValue) -> (r: Option<u64>)
    ensures
        r == json_u64(*v),
{
    match v {
        JsonValue::Number(JsonNumber::PosInt(n)) => Some(*n),
        _ => None,
    }
}

fn as_u32(v: &JsonValue) -> (r: Option<u32>)
    ensures
        r == json_u32(*v),
{
    match v {
        JsonValue::Number(JsonNumber::PosInt(n)) => if *n <= 0xffff_ffffu64 {
            Some(*n as u32)
        } else {
            None
        },
        _ => None,
    }
}

proof fn lemma_lines_stuck(entries: Seq<(String, JsonValue)>, k: nat, n: nat)
    requires
        k <= n,
        decode_lines_upto(entries, k) is None,
    ensures
        decode_lines_upto(entries, n) is None,
    decreases n - k,
{
    if k < n {
        lemma_lines_stuck(entries, k, (n - 1) as nat);
    }
}

proof fn lemma_branches_stuck(items: Seq<JsonValue>, k: nat, n: nat)
    requires
        k <= n,
        decode_branches_upto(items, k) is None,
    ensures
        decode_branches_upto(items, n) is None,
    decreases n - k,
{
    if k < n {
        lemma_branches_stuck(items, k, (n - 1) as nat);
    }
}

/// Reads a `Lines` value.
fn read_lines(v: &JsonValue) -> (r: Option<Vec<(u32, u64)>>)
    ensures
        match decode_lines(*v) {
            Some(s) => r matches Some(x) && x@ == s,
            None => r is None,
        },
{
    match v {
        JsonValue::Object(entries) => {
            let mut out: Vec<(u32, u64)> = Vec::new();
            let mut k: usize = 0;
            while k < entries.len()
                invariant
                    k <= entries@.len(),
                    *v == JsonValue::Object(*entries),
                    decode_lines_upto(entries@, k as nat) == Some(out@),
                decreases entries@.len() - k,
            {
                let kc = chars_of(entries[k].0.as_str());
                let line = parse_u32(kc.as_slice());
                let hits = as_u64(&entries[k].1);
                match (line, hits) {
                    (Some(l), Some(h)) => {
                        out.push((l, h));
                    },
                    _ => {
                        proof {
                            assert(kc@ == entries@[k as int].0@);
                            assert(decode_lines_upto(entries@, (k + 1) as nat) is None);
                            lemma_lines_stuck(entries@, (k + 1) as nat, entries@.len());
                        }
                        return None;
                    },
                }
                k = k + 1;
            }
            Some(out)
        },
        _ => None,
    }
}

/// Reads a branch record.
fn read_branch(v: &JsonValue) -> (r: Option<(u32, u64)>)
    ensures
        r == decode_branch(*v),
{
    proof {
        reveal_strlit("Line");
        reveal_strlit("Hits");
    }
    match v {
        JsonValue::Object(entries) => match (find_member(entries, "Line"), find_member(entries, "Hits")) {
            (Some(l), Some(h)) => match (as_u32(l), as_u64(h)) {
                (Some(a), Some(b)) => Some((a, b)),
                _ => None,
            },
            _ => None,
        },
        JsonValue::Array(items) => {
            if items.len() == 2 {
                match (as_u32(&items[0]), as_u64(&items[1])) {
                    (Some(a), Some(b)) => Some((a, b)),
                    _ => None,
                }
            } else {
                None
            }
        },
        _ => None,
    }
}

/// Reads a `Branches` value.
fn read_branches(v: &JsonValue) -> (r: Option<Vec<(u32, u64)>>)
    ensures
        match decode_branches(*v) {
            Some(s) => r matches Some(x) && x@ == s,
            None => r is None,
        },
{
    match v {
        JsonValue::Array(items) => {
            let mut out: Vec<(u32, u64)> = Vec::new();
            let mut k: usize = 0;
            while k < items.len()
                invariant
                    k <= items@.len(),
                    *v == JsonValue::Array(*items),
                    decode_branches_upto(items@, k as nat) == Some(out@),
                decreases items@.len() - k,
            {
                match read_branch(&items[k]) {
                    Some(b) => {
                        out.push(b);
                    },
                    None => {
                        proof {
                            assert(decode_branches_upto(items@, (k + 1) as nat) is None);
                            lemma_branches_stuck(items@, (k + 1) as nat, items@.len());
                        }
                        return None;
                    },
                }
                k = k + 1;
            }
            Some(out)
        },
        _ => None,
    }
}

/// Reads a method record: its lines and its branches.
pub fn read_method(v: &JsonValue) -> (r: Option<(Vec<(u32, u64)>, Vec<(u32, u64)>)>)
    ensures
        match decode_method(*v) {
            Some(m) => r matches Some(x) && x.0@ == m.0 && x.1@ == m.1,
            None => r is None,
        },
{
    proof {
        reveal_strlit("Lines");
        reveal_strlit("Branches");
    }
    match v {
        JsonValue::Object(entries) => {
            let lv = match find_member(entries, "Lines") {
                Some(x) => x,
                None => {
                    return None;
                },
            };
            let lines = match read_lines(lv) {
                Some(x) => x,
                None => {
                    return None;
                },
            };
            match find_member(entries, "Branches") {
                None => Some((lines, Vec::new())),
                Some(bv) => match read_branches(bv) {
                    Some(bs) => Some((lines, bs)),
                    None => None,
                },
            }
        },
        JsonValue::Array(items) => {
            if items.len() == 1 || items.len() == 2 {
                let lines = match read_lines(&items[0]) {
                    Some(x) => x,
                    None => {
                        return None;
                    },
                };
                if items.len() == 1 {
                    Some((lines, Vec::new()))
                } else {
                    match read_branches(&items[1]) {
                        Some(bs) => Some((lines, bs)),
                        None => None,
                    }
                }
            } else {
                None
            }
        },
        _ => None,
    }
}

/// A decoded method: its line hits and its branch hits.
pub type Method = (Seq<(u32, u64)>, Seq<(u32, u64)>);

/// The hit count of each line of a method, after the first `k` entries: the last
/// count given for a line counts.
pub open spec fn method_hits(lines: Seq<(u32, u64)>, k: nat) -> Map<u32, u64>
    decreases k,
{
    if k == 0 {
        Map::empty()
    } else {
        method_hits(lines, (k - 1) as nat).insert(lines[k - 1].0, lines[k - 1].1)
    }
}

/// The hit count of each line of a method.
pub open spec fn hits_of(lines: Seq<(u32, u64)>) -> Map<u32, u64> {
    method_hits(lines, lines.len())
}

/// The methods of the first `k` members of a class.
pub open spec fn class_methods(entries: Seq<(String, JsonValue)>, k: nat) -> Seq<Method>
    decreases k,
{
    if k == 0 {
        seq![]
    } else {
        let prev = class_methods(entries, (k - 1) as nat);
        match decode_method(entries[k - 1].1) {
            Some(m) => prev.push(m),
            None => prev,
        }
    }
}

/// The methods of the first `k` classes of a file; classes that are not objects
/// have none.
pub open spec fn file_methods_upto(classes: Seq<(String, JsonValue)>, k: nat) -> Seq<Method>
    decreases k,
{
    if k == 0 {
        seq![]
    } else {
        let prev = file_methods_upto(classes, (k - 1) as nat);
        match classes[k - 1].1 {
            JsonValue::Object(ms) => prev + class_methods(ms@, ms@.len()),
            _ => prev,
        }
    }
}

/// The lines of a file: each line some method has, covered when some method's
/// count for it is positive.
pub open spec fn file_line_states(ms: Seq<Method>) -> Map<u32, bool> {
    Map::new(
        |l: u32| exists|i: int| 0 <= i < ms.len() && #[trigger] hits_of(ms[i].0).contains_key(l),
        |l: u32| exists|i: int| 0 <= i < ms.len() && #[trigger] hits_of(ms[i].0).contains_key(l) && hits_of(ms[i].0)[l] > 0,
    )
}

/// The branch hits of the first `k` methods, in order.
pub open spec fn file_branches(ms: Seq<Method>, k: nat) -> Seq<(u32, u64)>
    decreases k,
{
    if k == 0 {
        seq![]
    } else {
        file_branches(ms, (k - 1) as nat) + ms[k - 1].1
    }
}

/// The function of a method with lines: from its first to its last line, covered
/// when any of its lines was hit.
pub open spec fn method_function(m: Method) -> Option<(u32, u32, bool)> {
    let l = listing(hits_of(m.0), crate::coverage::llvm::line_order());
    if l.0.len() == 0 {
        None
    } else {
        Some((l.0[0], l.0.last(), exists|i: int| 0 <= i < l.1.len() && l.1[i] > 0))
    }
}

/// The functions of the first `k` methods, in order.
pub open spec fn file_functions(ms: Seq<Method>, k: nat) -> Seq<(u32, u32, bool)>
    decreases k,
{
    if k == 0 {
        seq![]
    } else {
        let prev = file_functions(ms, (k - 1) as nat);
        match method_function(ms[k - 1]) {
            Some(f) => prev.push(f),
            None => prev,
        }
    }
}

/// Branch opportunities of a Coverlet file, in order.
pub open spec fn coverlet_branch_ops(p: Seq<char>, bs: Seq<(u32, u64)>) -> Seq<OpportunityView> {
    bs.map_values(
        |b: (u32, u64)|
            (
                OpportunityKind::BranchOutcome,
                p,
                b.0,
                b.0,
                None::<u32>,
                None::<u32>,
                b.1 > 0,
                None::<bool>,
                None::<Seq<char>>,
            ),
    )
}

/// Function opportunities of a Coverlet file, in order.
pub open spec fn coverlet_function_ops(p: Seq<char>, fs: Seq<(u32, u32, bool)>) -> Seq<OpportunityView> {
    fs.map_values(
        |f: (u32, u32, bool)|
            (
                OpportunityKind::Function,
                p,
                f.0,
                f.1,
                None::<u32>,
                None::<u32>,
                f.2,
                None::<bool>,
                None::<Seq<char>>,
            ),
    )
}

/// What has been read: the opportunities, and the totals of lines, branches and functions.
pub type CoverletState = (Seq<OpportunityView>, Totals, Totals, Totals);

pub open spec fn flags_totals(flags: Seq<bool>) -> FileTotals {
    FileTotals { covered: count_true(flags) as usize, total: flags.len() as usize }
}

pub open spec fn put_any(t: Totals, p: Seq<char>, flags: Seq<bool>) -> Totals {
    if flags.len() > 0 {
        t.insert(p, flags_totals(flags))
    } else {
        t
    }
}

/// Reading one file of an assembly; a file whose value is not an object is skipped.
pub open spec fn coverlet_file_step(st: CoverletState, name: Seq<char>, value: JsonValue, root: Seq<char>) -> CoverletState {
    match value {
        JsonValue::Object(classes) => {
            let p = coverlet_path(name, root);
            let ms = file_methods_upto(classes@, classes@.len());
            let ll = listing(file_line_states(ms), crate::coverage::llvm::line_order());
            let bs = file_branches(ms, ms.len());
            let fs = file_functions(ms, ms.len());
            (
                st.0 + crate::coverage::llvm_report::line_ops(p, ll.0, ll.1) + coverlet_branch_ops(p, bs)
                    + coverlet_function_ops(p, fs),
                put_any(st.1, p, ll.1),
                put_any(st.2, p, bs.map_values(|b: (u32, u64)| b.1 > 0)),
                put_any(st.3, p, fs.map_values(|f: (u32, u32, bool)| f.2)),
            )
        },
        _ => st,
    }
}

/// The state after the first `k` files of an assembly.
pub open spec fn coverlet_files_upto(st: CoverletState, files: Seq<(String, JsonValue)>, root: Seq<char>, k: nat) -> CoverletState
    decreases k,
{
    if k == 0 {
        st
    } else {
        coverlet_file_step(coverlet_files_upto(st, files, root, (k - 1) as nat), files[k - 1].0@, files[k - 1].1, root)
    }
}

/// The state after the first `k` assemblies.
pub open spec fn coverlet_upto(export: Seq<(String, Vec<(String, JsonValue)>)>, root: Seq<char>, k: nat) -> CoverletState
    decreases k,
{
    if k == 0 {
        (seq![], Map::empty(), Map::empty(), Map::empty())
    } else {
        coverlet_files_upto(coverlet_upto(export, root, (k - 1) as nat), export[k - 1].1@, root, export[k - 1].1@.len())
    }
}

/// The metrics of a state with their totals, in metric order.
pub open spec fn coverlet_totals(st: CoverletState) -> Seq<(MetricKind, Totals)> {
    seq![(MetricKind::Line, st.1), (MetricKind::Branch, st.2), (MetricKind::Function, st.3)]
}

/// The hit count of each line of a method, in line order.
fn hits_table(lines: &Vec<(u32, u64)>) -> (r: (Vec<u32>, Vec<u64>))
    ensures
        lists_by(r.0@, r.1@, hits_of(lines@), crate::coverage::llvm::line_order()),
{
    proof {
        crate::coverage::llvm::lemma_line_order_total();
    }
    let mut keys: Vec<u32> = Vec::new();
    let mut vals: Vec<u64> = Vec::new();
    let mut k: usize = 0;
    while k < lines.len()
        invariant
            k <= lines@.len(),
            strict_total(crate::coverage::llvm::line_order()),
            lists_by(keys@, vals@, method_hits(lines@, k as nat), crate::coverage::llvm::line_order()),
        decreases lines@.len() - k,
    {
        let ghost m = method_hits(lines@, k as nat);
        let (l, h) = lines[k];
        let mut p: usize = 0;
        while p < keys.len() && keys[p] < l
            invariant
                p <= keys@.len(),
                forall|i: int| 0 <= i < p ==> keys@[i] < l,
            decreases keys@.len() - p,
        {
            p = p + 1;
        }
        if p < keys.len() && keys[p] == l {
            proof {
                lemma_lists_update(keys@, vals@, m, crate::coverage::llvm::line_order(), p as int, h);
            }
            vals.set(p, h);
        } else {
            proof {
                if p < keys@.len() {
                    assert(l < keys@[p as int]);
                }
                lemma_lists_insert(keys@, vals@, m, crate::coverage::llvm::line_order(), p as int, l, h);
            }
            keys.insert(p, l);
            vals.insert(p, h);
        }
        k = k + 1;
    }
    (keys, vals)
}

pub open spec fn method_view(m: (Vec<(u32, u64)>, Vec<(u32, u64)>)) -> Method {
    (m.0@, m.1@)
}

pub open spec fn method_views(v: Seq<(Vec<(u32, u64)>, Vec<(u32, u64)>)>) -> Seq<Method> {
    v.map_values(|m: (Vec<(u32, u64)>, Vec<(u32, u64)>)| method_view(m))
}

/// The methods of a file's classes, in order.
fn collect_methods(classes: &Vec<(String, JsonValue)>) -> (r: Vec<(Vec<(u32, u64)>, Vec<(u32, u64)>)>)
    ensures
        method_views(r@) == file_methods_upto(classes@, classes@.len()),
{
    let mut out: Vec<(Vec<(u32, u64)>, Vec<(u32, u64)>)> = Vec::new();
    let mut k: usize = 0;
    while k < classes.len()
        invariant
            k <= classes@.len(),
            method_views(out@) == file_methods_upto(classes@, k as nat),
        decreases classes@.len() - k,
    {
        match &classes[k].1 {
            JsonValue::Object(ms) => {
                let ghost base = method_views(out@);
                let mut j: usize = 0;
                while j < ms.len()
                    invariant
                        j <= ms@.len(),
                        classes@[k as int].1 == JsonValue::Object(*ms),
                        method_views(out@) == base + class_methods(ms@, j as nat),
                    decreases ms@.len() - j,
                {
                    let ghost before = method_views(out@);
                    match read_method(&ms[j].1) {
                        Some(m) => {
                            out.push(m);
                            assert(method_views(out@) =~= before.push(method_view(m)));
                        },
                        None => {},
                    }
                    j = j + 1;
                }
            },
            _ => {},
        }
        k = k + 1;
    }
    out
}

/// The line states after the first `i` methods and the first `j` lines of method `i`.
pub open spec fn states_partial(ms: Seq<Method>, i: int, keys: Seq<u32>, vals: Seq<u64>, j: int) -> Map<u32, bool> {
    let prev = file_line_states(ms.subrange(0, i));
    Map::new(
        |l: u32| prev.contains_key(l) || exists|t: int| 0 <= t < j && #[trigger] keys[t] == l,
        |l: u32|
            (prev.contains_key(l) && prev[l]) || exists|t: int| 0 <= t < j && #[trigger] keys[t] == l && vals[t] > 0,
    )
}

/// The lines of a file, in line order, each covered when some method hit it.
fn file_lines(ms: &Vec<(Vec<(u32, u64)>, Vec<(u32, u64)>)>) -> (r: (Vec<u32>, Vec<bool>))
    ensures
        lists_by(r.0@, r.1@, file_line_states(method_views(ms@)), crate::coverage::llvm::line_order()),
{
    proof {
        crate::coverage::llvm::lemma_line_order_total();
    }
    let ghost mv = method_views(ms@);
    let mut fk: Vec<u32> = Vec::new();
    let mut fv: Vec<bool> = Vec::new();
    assert(file_line_states(mv.subrange(0, 0)) =~= Map::<u32, bool>::empty());
    let mut i: usize = 0;
    while i < ms.len()
        invariant
            i <= ms@.len(),
            mv == method_views(ms@),
            strict_total(crate::coverage::llvm::line_order()),
            lists_by(fk@, fv@, file_line_states(mv.subrange(0, i as int)), crate::coverage::llvm::line_order()),
        decreases ms@.len() - i,
    {
        let (hk, hv) = hits_table(&ms[i].0);
        let ghost h = hits_of(mv[i as int].0);
        assert(mv[i as int].0 == ms@[i as int].0@);
        assert(states_partial(mv, i as int, hk@, hv@, 0) =~= file_line_states(mv.subrange(0, i as int)));
        let mut j: usize = 0;
        while j < hk.len()
            invariant
                j <= hk@.len(),
                i < mv.len(),
                lists_by(hk@, hv@, h, crate::coverage::llvm::line_order()),
                lists_by(fk@, fv@, states_partial(mv, i as int, hk@, hv@, j as int), crate::coverage::llvm::line_order()),
            decreases hk@.len() - j,
        {
            let ghost before = states_partial(mv, i as int, hk@, hv@, j as int);
            crate::coverage::llvm::mark_line(&mut fk, &mut fv, hk[j], hv[j] > 0, Ghost(before));
            proof {
                assert forall|t: int| 0 <= t < j implies hk@[t] != hk@[j as int] by {
                    assert(hk@[t] < hk@[j as int]);
                }
                assert(crate::coverage::llvm::mark_lines(before, hk@[j as int] as int, hk@[j as int] + 1, hv@[j as int] > 0)
                    =~= states_partial(mv, i as int, hk@, hv@, j + 1));
            }
            j = j + 1;
        }
        proof {
            let cur = states_partial(mv, i as int, hk@, hv@, hk@.len() as int);
            let next = file_line_states(mv.subrange(0, i + 1));
            assert forall|l: u32| #![auto] cur.contains_key(l) == next.contains_key(l) && (cur.contains_key(l) ==> cur[l]
                == next[l]) by {
                let prev = file_line_states(mv.subrange(0, i as int));
                let ms1 = mv.subrange(0, i + 1);
                if h.contains_key(l) {
                    let t = choose|t: int| 0 <= t < hk@.len() && #[trigger] hk@[t] == l;
                    assert(ms1[i as int] == mv[i as int]);
                    assert(hits_of(ms1[i as int].0).contains_key(l));
                }
                if exists|t: int| 0 <= t < hk@.len() && #[trigger] hk@[t] == l {
                    let t = choose|t: int| 0 <= t < hk@.len() && #[trigger] hk@[t] == l;
                    assert(h.contains_key(l) && h[l] == hv@[t]);
                }
                if prev.contains_key(l) {
                    let w = choose|w: int| 0 <= w < i && #[trigger] hits_of(mv.subrange(0, i as int)[w].0).contains_key(l);
                    assert(ms1[w] == mv.subrange(0, i as int)[w]);
                }
                if next.contains_key(l) {
                    let w = choose|w: int| 0 <= w < i + 1 && #[trigger] hits_of(ms1[w].0).contains_key(l);
                    if w < i {
                        assert(ms1[w] == mv.subrange(0, i as int)[w]);
                    }
                }
                if prev.contains_key(l) && prev[l] {
                    let w = choose|w: int|
                        0 <= w < i && #[trigger] hits_of(mv.subrange(0, i as int)[w].0).contains_key(l) && hits_of(
                            mv.subrange(0, i as int)[w].0,
                        )[l] > 0;
                    assert(ms1[w] == mv.subrange(0, i as int)[w]);
                }
                if next.contains_key(l) && next[l] {
                    let w = choose|w: int|
                        0 <= w < i + 1 && #[trigger] hits_of(ms1[w].0).contains_key(l) && hits_of(ms1[w].0)[l] > 0;
                    if w < i {
                        assert(ms1[w] == mv.subrange(0, i as int)[w]);
                    } else {
                        let t = choose|t: int| 0 <= t < hk@.len() && #[trigger] hk@[t] == l;
                        assert(hv@[t] == h[l]);
                    }
                }
            }
            assert(cur =~= next);
        }
        i = i + 1;
    }
    assert(mv.subrange(0, mv.len() as int) =~= mv);
    (fk, fv)
}

/// Appends the branch opportunities of a file's methods; returns how many are covered.
fn push_coverlet_branches(ops: &mut Vec<CoverageOpportunity>, path: &String, ms: &Vec<(Vec<(u32, u64)>, Vec<(u32, u64)>)>) -> (r: (
    usize,
    usize,
))
    ensures
        ({
            let bs = file_branches(method_views(ms@), ms@.len());
            &&& opportunity_views(final(ops)@) == opportunity_views(old(ops)@) + coverlet_branch_ops(path@, bs)
            &&& r.0 == count_true(bs.map_values(|b: (u32, u64)| b.1 > 0))
            &&& r.1 == bs.len()
        }),
{
    let ghost mv = method_views(ms@);
    let ghost base = opportunity_views(ops@);
    let mut covered: usize = 0;
    let mut total: usize = 0;
    let mut i: usize = 0;
    assert(base + coverlet_branch_ops(path@, file_branches(mv, 0)) =~= base);
    while i < ms.len()
        invariant
            i <= ms@.len(),
            mv == method_views(ms@),
            ({
                let bs = file_branches(mv, i as nat);
                &&& opportunity_views(ops@) == base + coverlet_branch_ops(path@, bs)
                &&& covered == count_true(bs.map_values(|b: (u32, u64)| b.1 > 0))
                &&& total == bs.len()
            }),
            covered <= total,
        decreases ms@.len() - i,
    {
        let bs = &ms[i].1;
        assert(mv[i as int].1 == bs@);
        let ghost prev = file_branches(mv, i as nat);
        let mut j: usize = 0;
        assert(prev + bs@.subrange(0, 0) =~= prev);
        while j < bs.len()
            invariant
                j <= bs@.len(),
                ({
                    let cur = prev + bs@.subrange(0, j as int);
                    &&& opportunity_views(ops@) == base + coverlet_branch_ops(path@, cur)
                    &&& covered == count_true(cur.map_values(|b: (u32, u64)| b.1 > 0))
                    &&& total == cur.len()
                }),
                covered <= total,
                total == prev.len() + j,
                prev.len() <= usize::MAX,
            decreases bs@.len() - j,
        {
            let (line, hits) = bs[j];
            let o = make_opportunity(OpportunityKind::BranchOutcome, path, line, line, None, None, hits > 0, None, None);
            let ghost cur = prev + bs@.subrange(0, j as int);
            let ghost next = prev + bs@.subrange(0, j + 1);
            let ghost before = opportunity_views(ops@);
            ops.push(o);
            let _n = ops.len();
            proof {
                assert(next =~= cur.push((line, hits)));
                assert(opportunity_views(ops@) =~= before.push(crate::model::opportunity_view(o)));
                assert(coverlet_branch_ops(path@, next) =~= coverlet_branch_ops(path@, cur).push(
                    crate::model::opportunity_view(o),
                ));
                assert(next.map_values(|b: (u32, u64)| b.1 > 0).drop_last() =~= cur.map_values(
                    |b: (u32, u64)| b.1 > 0,
                ));
                assert(opportunity_views(ops@).len() == ops@.len());
                assert(coverlet_branch_ops(path@, next).len() == next.len());
                assert(next.len() <= ops@.len());
            }
            if hits > 0 {
                covered = covered + 1;
            }
            total = total + 1;
            j = j + 1;
        }
        assert(bs@.subrange(0, bs@.len() as int) =~= bs@);
        i = i + 1;
    }
    (covered, total)
}

/// The function of a method with lines.
fn method_function_of(m: &(Vec<(u32, u64)>, Vec<(u32, u64)>)) -> (r: Option<(u32, u32, bool)>)
    ensures
        r == method_function(method_view(*m)),
{
    let (hk, hv) = hits_table(&m.0);
    proof {
        crate::coverage::llvm::lemma_line_order_total();
        lemma_listing(hk@, hv@, hits_of(m.0@), crate::coverage::llvm::line_order());
    }
    if hk.len() == 0 {
        return None;
    }
    let mut any = false;
    let mut i: usize = 0;
    while i < hv.len()
        invariant
            i <= hv@.len(),
            any == exists|t: int| 0 <= t < i && hv@[t] > 0,
        decreases hv@.len() - i,
    {
        if hv[i] > 0 {
            any = true;
        }
        i = i + 1;
    }
    proof {
        let l = listing(hits_of(method_view(*m).0), crate::coverage::llvm::line_order());
        assert(method_view(*m).0 == m.0@);
        assert(l.0 == hk@ && l.1 == hv@);
        assert(any == exists|t: int| 0 <= t < l.1.len() && l.1[t] > 0);
    }
    Some((hk[0], hk[hk.len() - 1], any))
}

/// Appends the function opportunities of a file's methods; returns how many are
/// covered and how many there are.
fn push_coverlet_functions(ops: &mut Vec<CoverageOpportunity>, path: &String, ms: &Vec<(Vec<(u32, u64)>, Vec<(u32, u64)>)>) -> (r: (
    usize,
    usize,
))
    ensures
        ({
            let fs = file_functions(method_views(ms@), ms@.len());
            &&& opportunity_views(final(ops)@) == opportunity_views(old(ops)@) + coverlet_function_ops(path@, fs)
            &&& r.0 == count_true(fs.map_values(|f: (u32, u32, bool)| f.2))
            &&& r.1 == fs.len()
        }),
{
    let ghost mv = method_views(ms@);
    let ghost base = opportunity_views(ops@);
    let mut covered: usize = 0;
    let mut total: usize = 0;
    let mut i: usize = 0;
    assert(base + coverlet_function_ops(path@, file_functions(mv, 0)) =~= base);
    while i < ms.len()
        invariant
            i <= ms@.len(),
            mv == method_views(ms@),
            ({
                let fs = file_functions(mv, i as nat);
                &&& opportunity_views(ops@) == base + coverlet_function_ops(path@, fs)
                &&& covered == count_true(fs.map_values(|f: (u32, u32, bool)| f.2))
                &&& total == fs.len()
            }),
            covered <= total <= i,
        decreases ms@.len() - i,
    {
        assert(mv[i as int] == method_view(ms@[i as int]));
        let ghost prev = file_functions(mv, i as nat);
        match method_function_of(&ms[i]) {
            Some(f) => {
                let o = make_opportunity(OpportunityKind::Function, path, f.0, f.1, None, None, f.2, None, None);
                let ghost before = opportunity_views(ops@);
                ops.push(o);
                proof {
                    assert(file_functions(mv, (i + 1) as nat) == prev.push(f));
                    assert(opportunity_views(ops@) =~= before.push(crate::model::opportunity_view(o)));
                    assert(coverlet_function_ops(path@, prev.push(f)) =~= coverlet_function_ops(path@, prev).push(
                        crate::model::opportunity_view(o),
                    ));
                    assert(prev.push(f).map_values(|f: (u32, u32, bool)| f.2).drop_last() =~= prev.map_values(
                        |f: (u32, u32, bool)| f.2,
                    ));
                }
                if f.2 {
                    covered = covered + 1;
                }
                total = total + 1;
            },
            None => {},
        }
        i = i + 1;
    }
    (covered, total)
}

/// The coverage report of a Coverlet report, with file paths made relative to
/// `repo_root`. Per assembly and file, in order: the file's lines (each line a
/// method has, covered when some method hit it), its branches, and one function per
/// method with lines (from its first to its last line, covered when any of its
/// lines was hit). Methods that are not method records are skipped, as are files
/// and classes that are not objects. Totals per file are kept for each metric that
/// has any.
pub fn parse_coverlet_report(export: &Vec<(String, Vec<(String, JsonValue)>)>, repo_root: &str) -> (r: CoverageReport)
    ensures
        ({
            let st = coverlet_upto(export@, repo_root@, export@.len());
            &&& opportunity_views(r.opportunities@) == st.0
            &&& lists_report_totals(r.totals_by_file@, coverlet_totals(st))
        }),
{
    let mut ops: Vec<CoverageOpportunity> = Vec::new();
    let mut line = TotalsTable::new();
    let mut branch = TotalsTable::new();
    let mut function = TotalsTable::new();
    assert(opportunity_views(ops@) =~= Seq::<OpportunityView>::empty());
    let mut a: usize = 0;
    while a < export.len()
        invariant
            a <= export@.len(),
            ({
                let st = coverlet_upto(export@, repo_root@, a as nat);
                &&& opportunity_views(ops@) == st.0
                &&& lists_table(line, st.1)
                &&& lists_table(branch, st.2)
                &&& lists_table(function, st.3)
            }),
        decreases export@.len() - a,
    {
        let files = &export[a].1;
        let ghost st0 = coverlet_upto(export@, repo_root@, a as nat);
        let mut k: usize = 0;
        while k < files.len()
            invariant
                k <= files@.len(),
                files@ == export@[a as int].1@,
                ({
                    let st = coverlet_files_upto(st0, files@, repo_root@, k as nat);
                    &&& opportunity_views(ops@) == st.0
                    &&& lists_table(line, st.1)
                    &&& lists_table(branch, st.2)
                    &&& lists_table(function, st.3)
                }),
            decreases files@.len() - k,
        {
            let ghost st = coverlet_files_upto(st0, files@, repo_root@, k as nat);
            let (name, value) = (&files[k].0, &files[k].1);
            match value {
                JsonValue::Object(classes) => {
                    let path = normalize_coverlet_path(name.as_str(), repo_root);
                    let pc = chars_of(path.as_str());
                    let ms = collect_methods(classes);
                    let (fk, fv) = file_lines(&ms);
                    proof {
                        crate::coverage::llvm::lemma_line_order_total();
                        lemma_listing(fk@, fv@, file_line_states(method_views(ms@)), crate::coverage::llvm::line_order());
                    }
                    let lc = crate::coverage::llvm_report::push_line_ops(&mut ops, &path, &fk, &fv);
                    if fk.len() > 0 {
                        line.put(pc.as_slice(), FileTotals { covered: lc, total: fk.len() }, Ghost(st.1));
                    }
                    let (bc, bt) = push_coverlet_branches(&mut ops, &path, &ms);
                    proof {
                        let bs = file_branches(method_views(ms@), ms@.len());
                        assert(bs.map_values(|b: (u32, u64)| b.1 > 0).len() == bs.len());
                    }
                    if bt > 0 {
                        branch.put(pc.as_slice(), FileTotals { covered: bc, total: bt }, Ghost(st.2));
                    }
                    let (fc, ft) = push_coverlet_functions(&mut ops, &path, &ms);
                    proof {
                        let fs = file_functions(method_views(ms@), ms@.len());
                        assert(fs.map_values(|f: (u32, u32, bool)| f.2).len() == fs.len());
                    }
                    if ft > 0 {
                        function.put(pc.as_slice(), FileTotals { covered: fc, total: ft }, Ghost(st.3));
                    }
                },
                _ => {},
            }
            k = k + 1;
        }
        a = a + 1;
    }
    let ghost st = coverlet_upto(export@, repo_root@, export@.len());
    let tb: Vec<(MetricKind, FileTotalsList)> = Vec::new();
    let ghost ms0 = Seq::<(MetricKind, Totals)>::empty();
    let ghost ms1 = ms0.push((MetricKind::Line, st.1));
    let ghost ms2 = ms1.push((MetricKind::Branch, st.2));
    assert(lists_report_totals(tb@, ms0));
    let tb = push_metric_totals(tb, MetricKind::Line, &line, Ghost(st.1), Ghost(ms0));
    let tb = push_metric_totals(tb, MetricKind::Branch, &branch, Ghost(st.2), Ghost(ms1));
    let tb = push_metric_totals(tb, MetricKind::Function, &function, Ghost(st.3), Ghost(ms2));
    assert(coverlet_totals(st) =~= ms2.push((MetricKind::Function, st.3)));
    CoverageReport { opportunities: ops, totals_by_file: tb }
}


/// The lines that the first `k` methods have.
pub open spec fn method_lines_upto(ms: Seq<Method>, k: nat) -> Set<u32>
    decreases k,
{
    if k == 0 {
        Set::empty()
    } else {
        method_lines_upto(ms, (k - 1) as nat).union(hits_of(ms[k - 1].0).dom())
    }
}

proof fn lemma_method_hits_finite(lines: Seq<(u32, u64)>, k: nat)
    ensures
        method_hits(lines, k).dom().finite(),
    decreases k,
{
    if k > 0 {
        lemma_method_hits_finite(lines, (k - 1) as nat);
    }
}

proof fn lemma_method_lines_upto(ms: Seq<Method>, k: nat)
    requires
        k <= ms.len(),
    ensures
        method_lines_upto(ms, k).finite(),
        forall|l: u32, i: int|
            0 <= i < k && #[trigger] hits_of(ms[i].0).contains_key(l) ==> method_lines_upto(ms, k).contains(l),
    decreases k,
{
    if k > 0 {
        lemma_method_lines_upto(ms, (k - 1) as nat);
        lemma_method_hits_finite(ms[k - 1].0, ms[k - 1].0.len());
    }
}

proof fn lemma_file_line_states_finite(ms: Seq<Method>)
    ensures
        file_line_states(ms).dom().finite(),
{
    lemma_method_lines_upto(ms, ms.len());
    let u = method_lines_upto(ms, ms.len());
    assert(file_line_states(ms).dom().subset_of(u));
    vstd::set_lib::lemma_set_subset_finite(u, file_line_states(ms).dom());
}

/// Reading a file whose path no earlier file had keeps each metric's totals
/// counting that metric's opportunities, and changes the opportunities of no
/// other path.
proof fn lemma_coverlet_step_counts(st: CoverletState, name: Seq<char>, value: JsonValue, root: Seq<char>)
    requires
        totals_count_ops(st.1, st.0, OpportunityKind::Line),
        totals_count_ops(st.2, st.0, OpportunityKind::BranchOutcome),
        totals_count_ops(st.3, st.0, OpportunityKind::Function),
        forall|k: OpportunityKind| #[trigger] count_ops(st.0, k, coverlet_path(name, root)) == 0,
        coverlet_file_step(st, name, value, root).0.len() <= usize::MAX,
    ensures
        ({
            let nx = coverlet_file_step(st, name, value, root);
            &&& totals_count_ops(nx.1, nx.0, OpportunityKind::Line)
            &&& totals_count_ops(nx.2, nx.0, OpportunityKind::BranchOutcome)
            &&& totals_count_ops(nx.3, nx.0, OpportunityKind::Function)
            &&& forall|k: OpportunityKind, q: Seq<char>|
                q != coverlet_path(name, root) ==> #[trigger] count_ops(nx.0, k, q) == count_ops(st.0, k, q)
        }),
{
    let nx = coverlet_file_step(st, name, value, root);
    match value {
        JsonValue::Object(classes) => {
            let p = coverlet_path(name, root);
            let ms = file_methods_upto(classes@, classes@.len());
            lemma_file_line_states_finite(ms);
            crate::coverage::llvm::lemma_line_order_total();
            lemma_listing_exists(file_line_states(ms), crate::coverage::llvm::line_order());
            let ll = listing(file_line_states(ms), crate::coverage::llvm::line_order());
            let bs = file_branches(ms, ms.len());
            let fs = file_functions(ms, ms.len());
            let lo = crate::coverage::llvm_report::line_ops(p, ll.0, ll.1);
            let bo = coverlet_branch_ops(p, bs);
            let fo = coverlet_function_ops(p, fs);
            let bf = bs.map_values(|b: (u32, u64)| b.1 > 0);
            let ff = fs.map_values(|f: (u32, u32, bool)| f.2);
            assert(is_block(lo, OpportunityKind::Line, p, ll.1));
            assert(is_block(bo, OpportunityKind::BranchOutcome, p, bf));
            assert(is_block(fo, OpportunityKind::Function, p, ff));
            let extra = lo + bo + fo;
            assert(nx.0 =~= st.0 + extra);
            assert forall|k: OpportunityKind, q: Seq<char>| #![trigger count_ops(extra, k, q)] #![trigger count_covered_ops(extra, k, q)]
                count_ops(extra, k, q) == (if k == OpportunityKind::Line && q == p {
                    ll.1.len()
                } else if k == OpportunityKind::BranchOutcome && q == p {
                    bf.len()
                } else if k == OpportunityKind::Function && q == p {
                    ff.len()
                } else {
                    0
                }) && count_covered_ops(extra, k, q) == (if k == OpportunityKind::Line && q == p {
                    count_true(ll.1)
                } else if k == OpportunityKind::BranchOutcome && q == p {
                    count_true(bf)
                } else if k == OpportunityKind::Function && q == p {
                    count_true(ff)
                } else {
                    0
                }) by {
                lemma_count_ops_add(lo, bo, k, q);
                lemma_count_ops_add(lo + bo, fo, k, q);
                lemma_block_counts(lo, OpportunityKind::Line, p, ll.1, k, q);
                lemma_block_counts(bo, OpportunityKind::BranchOutcome, p, bf, k, q);
                lemma_block_counts(fo, OpportunityKind::Function, p, ff, k, q);
            }
            assert forall|k: OpportunityKind, q: Seq<char>| q != p implies #[trigger] count_ops(nx.0, k, q) == count_ops(
                st.0,
                k,
                q,
            ) by {
                lemma_count_ops_add(st.0, extra, k, q);
                assert(count_ops(extra, k, q) == 0);
            }
            assert(count_ops(st.0, OpportunityKind::Line, p) == 0);
            assert(count_ops(st.0, OpportunityKind::BranchOutcome, p) == 0);
            assert(count_ops(st.0, OpportunityKind::Function, p) == 0);
            assert(count_ops(extra, OpportunityKind::Line, p) == ll.1.len());
            assert(count_ops(extra, OpportunityKind::BranchOutcome, p) == bf.len());
            assert(count_ops(extra, OpportunityKind::Function, p) == ff.len());
            assert(count_covered_ops(extra, OpportunityKind::Line, p) == count_true(ll.1));
            assert(count_covered_ops(extra, OpportunityKind::BranchOutcome, p) == count_true(bf));
            assert(count_covered_ops(extra, OpportunityKind::Function, p) == count_true(ff));
            assert forall|q: Seq<char>| q != p implies #[trigger] count_ops(extra, OpportunityKind::Line, q) == 0 by {
                assert(count_ops(extra, OpportunityKind::Line, q) == 0);
            }
            assert forall|q: Seq<char>| q != p implies #[trigger] count_ops(extra, OpportunityKind::BranchOutcome, q)
                == 0 by {
                assert(count_ops(extra, OpportunityKind::BranchOutcome, q) == 0);
            }
            assert forall|q: Seq<char>| q != p implies #[trigger] count_ops(extra, OpportunityKind::Function, q) == 0 by {
                assert(count_ops(extra, OpportunityKind::Function, q) == 0);
            }
            lemma_put_counts(st.1, st.0, extra, OpportunityKind::Line, p, ll.1);
            lemma_put_counts(st.2, st.0, extra, OpportunityKind::BranchOutcome, p, bf);
            lemma_put_counts(st.3, st.0, extra, OpportunityKind::Function, p, ff);
        },
        _ => {},
    }
}

/// The path of file `f` of assembly `a`.
pub open spec fn coverlet_file_path(
    export: Seq<(String, Vec<(String, JsonValue)>)>,
    root: Seq<char>,
    a: int,
    f: int,
) -> Seq<char> {
    coverlet_path(export[a].1@[f].0@, root)
}

/// No two files of the export, in one assembly or in two, have the same path.
pub open spec fn coverlet_paths_distinct(export: Seq<(String, Vec<(String, JsonValue)>)>, root: Seq<char>) -> bool {
    forall|a: int, f: int, b: int, g: int|
        0 <= a < export.len() && 0 <= f < export[a].1@.len() && 0 <= b < export.len() && 0 <= g < export[b].1@.len()
            && (a != b || f != g) ==> #[trigger] coverlet_file_path(export, root, a, f) != #[trigger] coverlet_file_path(
            export,
            root,
            b,
            g,
        )
}

/// After the first `j` files of assembly `a`, the totals still count the
/// opportunities, and only the paths of those files have gained any.
proof fn lemma_coverlet_files_counts(
    st: CoverletState,
    export: Seq<(String, Vec<(String, JsonValue)>)>,
    root: Seq<char>,
    a: int,
    j: nat,
)
    requires
        0 <= a < export.len(),
        j <= export[a].1@.len(),
        coverlet_paths_distinct(export, root),
        totals_count_ops(st.1, st.0, OpportunityKind::Line),
        totals_count_ops(st.2, st.0, OpportunityKind::BranchOutcome),
        totals_count_ops(st.3, st.0, OpportunityKind::Function),
        forall|f: int, k: OpportunityKind|
            0 <= f < export[a].1@.len() ==> #[trigger] count_ops(st.0, k, coverlet_file_path(export, root, a, f)) == 0,
        coverlet_files_upto(st, export[a].1@, root, j).0.len() <= usize::MAX,
    ensures
        ({
            let nx = coverlet_files_upto(st, export[a].1@, root, j);
            &&& totals_count_ops(nx.1, nx.0, OpportunityKind::Line)
            &&& totals_count_ops(nx.2, nx.0, OpportunityKind::BranchOutcome)
            &&& totals_count_ops(nx.3, nx.0, OpportunityKind::Function)
            &&& forall|k: OpportunityKind, q: Seq<char>|
                (forall|f: int| 0 <= f < j ==> coverlet_file_path(export, root, a, f) != q) ==> #[trigger] count_ops(
                    nx.0,
                    k,
                    q,
                ) == count_ops(st.0, k, q)
        }),
    decreases j,
{
    let files = export[a].1@;
    if j > 0 {
        let prev = coverlet_files_upto(st, files, root, (j - 1) as nat);
        lemma_coverlet_files_counts(st, export, root, a, (j - 1) as nat);
        let p = coverlet_file_path(export, root, a, j - 1);
        assert forall|k: OpportunityKind| #[trigger] count_ops(prev.0, k, p) == 0 by {
            assert forall|f: int| 0 <= f < j - 1 implies coverlet_file_path(export, root, a, f) != p by {
                assert(coverlet_file_path(export, root, a, f) != coverlet_file_path(export, root, a, j - 1));
            }
            assert(count_ops(st.0, k, p) == 0);
        }
        lemma_coverlet_step_counts(prev, files[j - 1].0@, files[j - 1].1, root);
        let nx = coverlet_files_upto(st, files, root, j);
        assert forall|k: OpportunityKind, q: Seq<char>|
            (forall|f: int| 0 <= f < j ==> coverlet_file_path(export, root, a, f) != q) implies #[trigger] count_ops(
                nx.0,
                k,
                q,
            ) == count_ops(st.0, k, q) by {
            assert(coverlet_file_path(export, root, a, j - 1) != q);
            assert(count_ops(nx.0, k, q) == count_ops(prev.0, k, q));
            assert forall|f: int| 0 <= f < j - 1 implies coverlet_file_path(export, root, a, f) != q by {
                assert(coverlet_file_path(export, root, a, f) != q);
            }
        }
    }
}

proof fn lemma_coverlet_files_grow(st: CoverletState, files: Seq<(String, JsonValue)>, root: Seq<char>, j: nat)
    ensures
        st.0.len() <= coverlet_files_upto(st, files, root, j).0.len(),
    decreases j,
{
    if j > 0 {
        lemma_coverlet_files_grow(st, files, root, (j - 1) as nat);
    }
}

/// After the first `n` assemblies, the totals count the opportunities, and a path
/// that none of their files has has no opportunity.
proof fn lemma_coverlet_counts_upto(export: Seq<(String, Vec<(String, JsonValue)>)>, root: Seq<char>, n: nat)
    requires
        n <= export.len(),
        coverlet_paths_distinct(export, root),
        coverlet_upto(export, root, n).0.len() <= usize::MAX,
    ensures
        ({
            let st = coverlet_upto(export, root, n);
            &&& totals_count_ops(st.1, st.0, OpportunityKind::Line)
            &&& totals_count_ops(st.2, st.0, OpportunityKind::BranchOutcome)
            &&& totals_count_ops(st.3, st.0, OpportunityKind::Function)
            &&& forall|k: OpportunityKind, q: Seq<char>|
                (forall|a: int, f: int|
                    0 <= a < n && 0 <= f < export[a].1@.len() ==> coverlet_file_path(export, root, a, f) != q)
                    ==> #[trigger] count_ops(st.0, k, q) == 0
        }),
    decreases n,
{
    let st = coverlet_upto(export, root, n);
    if n == 0 {
        assert forall|k: OpportunityKind, q: Seq<char>| #[trigger] count_ops(st.0, k, q) == 0 by {}
    } else {
        let a = n - 1;
        let prev = coverlet_upto(export, root, (n - 1) as nat);
        lemma_coverlet_files_grow(prev, export[a].1@, root, export[a].1@.len());
        lemma_coverlet_counts_upto(export, root, (n - 1) as nat);
        assert forall|f: int, k: OpportunityKind| 0 <= f < export[a].1@.len() implies #[trigger] count_ops(
            prev.0,
            k,
            coverlet_file_path(export, root, a, f),
        ) == 0 by {
            let q = coverlet_file_path(export, root, a, f);
            assert forall|b: int, g: int| 0 <= b < n - 1 && 0 <= g < export[b].1@.len() implies coverlet_file_path(
                export,
                root,
                b,
                g,
            ) != q by {}
        }
        lemma_coverlet_files_counts(prev, export, root, a, export[a].1@.len());
        assert forall|k: OpportunityKind, q: Seq<char>|
            (forall|b: int, g: int|
                0 <= b < n && 0 <= g < export[b].1@.len() ==> coverlet_file_path(export, root, b, g) != q) implies #[trigger] count_ops(
            st.0,
            k,
            q,
        ) == 0 by {
            assert forall|g: int| 0 <= g < export[a].1@.len() implies coverlet_file_path(export, root, a, g) != q by {}
            assert(count_ops(st.0, k, q) == count_ops(prev.0, k, q));
        }
    }
}

/// When no two files of the export, in one assembly or in two, name the same path,
/// each file's line, branch and function totals are non-empty, count no more
/// covered than there are, and equal the number of that file's opportunities of
/// that kind and of those covered; a file without totals for a metric has no
/// opportunity of its kind.
pub proof fn lemma_coverlet_totals_count(export: Seq<(String, Vec<(String, JsonValue)>)>, root: Seq<char>)
    requires
        coverlet_paths_distinct(export, root),
        coverlet_upto(export, root, export.len()).0.len() <= usize::MAX,
    ensures
        ({
            let st = coverlet_upto(export, root, export.len());
            &&& totals_count_ops(st.1, st.0, OpportunityKind::Line)
            &&& totals_count_ops(st.2, st.0, OpportunityKind::BranchOutcome)
            &&& totals_count_ops(st.3, st.0, OpportunityKind::Function)
        }),
{
    lemma_coverlet_counts_upto(export, root, export.len());
}


/// How many branch records the first `k` methods have together.
pub open spec fn branch_record_count(ms: Seq<Method>, k: nat) -> nat
    decreases k,
{
    if k == 0 {
        0
    } else {
        branch_record_count(ms, (k - 1) as nat) + ms[k - 1].1.len()
    }
}

proof fn lemma_branch_count_mono(ms: Seq<Method>, a: nat, b: nat)
    requires
        a <= b <= ms.len(),
    ensures
        branch_record_count(ms, a) + if a < b { ms[a as int].1.len() } else { 0 } <= branch_record_count(ms, b),
    decreases b - a,
{
    if a < b {
        if a + 1 < b {
            lemma_branch_count_mono(ms, a + 1, b);
        }
    }
}

proof fn lemma_file_branches_upto(ms: Seq<Method>, k: nat)
    requires
        k <= ms.len(),
    ensures
        file_branches(ms, k).len() == branch_record_count(ms, k),
        forall|i: int, t: int|
            0 <= i < k && 0 <= t < ms[i].1.len() ==> file_branches(ms, k)[branch_record_count(ms, i as nat) + t]
                == #[trigger] ms[i].1[t],
    decreases k,
{
    if k > 0 {
        lemma_file_branches_upto(ms, (k - 1) as nat);
        let prev = file_branches(ms, (k - 1) as nat);
        let cur = file_branches(ms, k);
        assert forall|i: int, t: int| 0 <= i < k && 0 <= t < ms[i].1.len() implies cur[branch_record_count(
            ms,
            i as nat,
        ) + t] == #[trigger] ms[i].1[t] by {
            if i < k - 1 {
                lemma_branch_count_mono(ms, i as nat, (k - 1) as nat);
                assert(cur[branch_record_count(ms, i as nat) + t] == prev[branch_record_count(ms, i as nat) + t]);
            }
        }
    }
}

/// The branch records of a Coverlet file are those of all its methods, in order:
/// as many as the methods have together, the `t`-th record of method `i` standing
/// after the records of the methods before it.
pub proof fn lemma_file_branches_concatenate(ms: Seq<Method>)
    ensures
        file_branches(ms, ms.len()).len() == branch_record_count(ms, ms.len()),
        forall|i: int, t: int|
            0 <= i < ms.len() && 0 <= t < ms[i].1.len() ==> file_branches(ms, ms.len())[branch_record_count(
                ms,
                i as nat,
            ) + t] == #[trigger] ms[i].1[t],
{
    lemma_file_branches_upto(ms, ms.len());
}

} // verus!
