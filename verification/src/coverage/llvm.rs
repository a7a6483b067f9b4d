//! LLVM coverage exports (`llvm-cov export -format=text`): regions, lines and
//! branches from each file's segments and branches, and functions from the
//! function records.
use vstd::prelude::*;

use crate::coverage::json::{JsonNumber, JsonValue};
use crate::error::CovgateError;
use crate::sorted::{lemma_lists_insert, lemma_lists_update, lists_by, strict_total};

verus! {

/// An LLVM export: one entry per exported binary.
pub struct LlvmExport {
    pub data: Vec<LlvmData>,
}

/// The files and functions of one exported binary.
pub struct LlvmData {
    pub files: Vec<LlvmFile>,
    pub functions: Vec<LlvmFunction>,
}

/// A function record: execution count, files, mangled name and code regions.
pub struct LlvmFunction {
    pub count: u64,
    pub filenames: Vec<String>,
    pub name: Option<String>,
    pub regions: Vec<LlvmFunctionRegion>,
}

/// A code region of a function.
#[derive(Clone, Copy, Debug, PartialEq, Eq, Structural)]
pub struct LlvmFunctionRegion {
    pub line_start: u32,
    pub col_start: u32,
    pub line_end: u32,
    pub col_end: u32,
    pub execution_count: u64,
}

/// A file: its name, its coverage segments and its branch records, each a JSON array.
pub struct LlvmFile {
    pub filename: String,
    pub segments: Vec<Vec<JsonValue>>,
    pub branches: Vec<Vec<JsonValue>>,
}

/// A region of a file between two segments.
#[derive(Clone, Copy, Debug, PartialEq, Eq, Structural)]
pub struct RegionRecord {
    pub start_line: u32,
    pub start_col: u32,
    pub end_line: u32,
    pub end_col: u32,
    pub covered: bool,
}

/// One outcome of a branch.
#[derive(Clone, Copy, Debug, PartialEq, Eq, Structural)]
pub struct BranchRecord {
    pub line_number: u32,
    pub start_col: u32,
    pub covered: bool,
}

pub open spec fn missing_numeric() -> Seq<char> {
    "llvm segment missing numeric field"@
}

pub open spec fn numeric_out_of_range() -> Seq<char> {
    "llvm segment numeric field out of range"@
}

/// The entry `i` of a segment or branch as a line or column number.
pub open spec fn number_at_spec(values: Seq<JsonValue>, i: int) -> Result<u32, Seq<char>> {
    if 0 <= i < values.len() {
        match values[i] {
            JsonValue::Number(JsonNumber::PosInt(n)) => if n <= u32::MAX {
                Ok(n as u32)
            } else {
                Err(numeric_out_of_range())
            },
            _ => Err(missing_numeric()),
        }
    } else {
        Err(missing_numeric())
    }
}

/// The entry `i` of a segment or branch as a flag, if it is one.
pub open spec fn bool_at_spec(values: Seq<JsonValue>, i: int) -> Option<bool> {
    if 0 <= i < values.len() {
        match values[i] {
            JsonValue::Bool(b) => Some(b),
            _ => None,
        }
    } else {
        None
    }
}

pub open spec fn flag_or(o: Option<bool>, d: bool) -> bool {
    match o {
        Some(b) => b,
        None => d,
    }
}

/// The entry `i` as a line or column number.
fn number_at(values: &Vec<JsonValue>, i: usize) -> (r: Result<u32, CovgateError>)
    ensures
        match number_at_spec(values@, i as int) {
            Ok(n) => r == Ok::<u32, CovgateError>(n),
            Err(m) => r matches Err(e) && e.message@ == m,
        },
{
    if i < values.len() {
        if let JsonValue::Number(JsonNumber::PosInt(n)) = &values[i] {
            if *n <= 0xffff_ffffu64 {
                return Ok(*n as u32);
            }
            return Err(CovgateError::new("llvm segment numeric field out of range"));
        }
    }
    Err(CovgateError::new("llvm segment missing numeric field"))
}

/// The entry `i` as a flag, if it is one.
fn bool_at(values: &Vec<JsonValue>, i: usize) -> (r: Option<bool>)
    ensures
        r == bool_at_spec(values@, i as int),
{
    if i < values.len() {
        if let JsonValue::Bool(b) = &values[i] {
            return Some(*b);
        }
    }
    None
}

fn unwrap_flag(o: Option<bool>, d: bool) -> (r: bool)
    ensures
        r == flag_or(o, d),
{
    match o {
        Some(b) => b,
        None => d,
    }
}

/// The number of windows of consecutive segments.
pub open spec fn window_count(n: nat) -> nat {
    if n == 0 {
        0
    } else {
        (n - 1) as nat
    }
}

/// The region between the segments `start` and `end`, when it counts: it does not
/// run backwards, has a count, starts a region and is not a gap.
pub open spec fn window_region(start: Seq<JsonValue>, end: Seq<JsonValue>) -> Result<Option<RegionRecord>, Seq<char>> {
    match number_at_spec(start, 0) {
        Err(e) => Err(e),
        Ok(sl) => match number_at_spec(start, 1) {
            Err(e) => Err(e),
            Ok(sc) => match number_at_spec(end, 0) {
                Err(e) => Err(e),
                Ok(el) => match number_at_spec(end, 1) {
                    Err(e) => Err(e),
                    Ok(ec) => if el < sl {
                        Ok(None)
                    } else {
                        match number_at_spec(start, 2) {
                            Err(e) => Err(e),
                            Ok(count) => {
                                let has_count = flag_or(bool_at_spec(start, 3), true);
                                let is_entry = flag_or(bool_at_spec(start, 4), true);
                                let is_gap = flag_or(bool_at_spec(start, 5), false);
                                if !has_count || !is_entry || is_gap {
                                    Ok(None)
                                } else {
                                    Ok(
                                        Some(
                                            RegionRecord {
                                                start_line: sl,
                                                start_col: sc,
                                                end_line: el,
                                                end_col: ec,
                                                covered: count > 0,
                                            },
                                        ),
                                    )
                                }
                            },
                        }
                    },
                },
            },
        },
    }
}

/// The regions of the first `k` windows, or the first error.
pub open spec fn regions_upto(segs: Seq<Seq<JsonValue>>, k: nat) -> Result<Seq<RegionRecord>, Seq<char>>
    decreases k,
{
    if k == 0 {
        Ok(seq![])
    } else {
        match regions_upto(segs, (k - 1) as nat) {
            Err(e) => Err(e),
            Ok(prev) => match window_region(segs[k - 1], segs[k as int]) {
                Err(e) => Err(e),
                Ok(None) => Ok(prev),
                Ok(Some(r)) => Ok(prev.push(r)),
            },
        }
    }
}

/// The regions that the segments of a file describe.
pub open spec fn segment_regions(segs: Seq<Seq<JsonValue>>) -> Result<Seq<RegionRecord>, Seq<char>> {
    regions_upto(segs, window_count(segs.len()))
}

pub open spec fn seg_views(segs: Seq<Vec<JsonValue>>) -> Seq<Seq<JsonValue>> {
    segs.map_values(|s: Vec<JsonValue>| s@)
}

proof fn lemma_regions_stuck(segs: Seq<Seq<JsonValue>>, k: nat, n: nat)
    requires
        k <= n,
        regions_upto(segs, k) is Err,
    ensures
        regions_upto(segs, n) == regions_upto(segs, k),
    decreases n - k,
{
    if k < n {
        lemma_regions_stuck(segs, k, (n - 1) as nat);
    }
}

/// The regions of a file's segments, one per counted window.
pub fn segments_to_regions(segments: &Vec<Vec<JsonValue>>) -> (r: Result<Vec<RegionRecord>, CovgateError>)
    ensures
        match segment_regions(seg_views(segments@)) {
            Ok(rs) => r matches Ok(v) && v@ == rs,
            Err(m) => r matches Err(e) && e.message@ == m,
        },
{
    let ghost sv = seg_views(segments@);
    let mut regions: Vec<RegionRecord> = Vec::new();
    if segments.len() == 0 {
        return Ok(regions);
    }
    let n = segments.len() - 1;
    let mut k: usize = 0;
    while k < n
        invariant
            n == segments@.len() - 1,
            k <= n,
            sv == seg_views(segments@),
            regions_upto(sv, k as nat) == Ok::<Seq<RegionRecord>, Seq<char>>(regions@),
        decreases n - k,
    {
        let start = &segments[k];
        let end = &segments[k + 1];
        assert(sv[k as int] == start@ && sv[k + 1] == end@);
        let sl = match number_at(start, 0) {
            Ok(v) => v,
            Err(e) => {
                proof {
                    lemma_regions_stuck(sv, (k + 1) as nat, n as nat);
                }
                return Err(e);
            },
        };
        let sc = match number_at(start, 1) {
            Ok(v) => v,
            Err(e) => {
                proof {
                    lemma_regions_stuck(sv, (k + 1) as nat, n as nat);
                }
                return Err(e);
            },
        };
        let el = match number_at(end, 0) {
            Ok(v) => v,
            Err(e) => {
                proof {
                    lemma_regions_stuck(sv, (k + 1) as nat, n as nat);
                }
                return Err(e);
            },
        };
        let ec = match number_at(end, 1) {
            Ok(v) => v,
            Err(e) => {
                proof {
                    lemma_regions_stuck(sv, (k + 1) as nat, n as nat);
                }
                return Err(e);
            },
        };
        if el >= sl {
            let count = match number_at(start, 2) {
                Ok(v) => v,
                Err(e) => {
                    proof {
                        lemma_regions_stuck(sv, (k + 1) as nat, n as nat);
                    }
                    return Err(e);
                },
            };
            let has_count = unwrap_flag(bool_at(start, 3), true);
            let is_entry = unwrap_flag(bool_at(start, 4), true);
            let is_gap = unwrap_flag(bool_at(start, 5), false);
            if has_count && is_entry && !is_gap {
                regions.push(
                    RegionRecord { start_line: sl, start_col: sc, end_line: el, end_col: ec, covered: count > 0 },
                );
            }
        }
        k = k + 1;
    }
    Ok(regions)
}

/// The lines and coverage of the window between `start` and `end`, when it has a
/// count: from its start line to its end line, less the end line when the window
/// ends at its first column.
pub open spec fn window_lines(start: Seq<JsonValue>, end: Seq<JsonValue>) -> Result<Option<(u32, u32, bool)>, Seq<char>> {
    match number_at_spec(start, 0) {
        Err(e) => Err(e),
        Ok(sl) => match number_at_spec(end, 0) {
            Err(e) => Err(e),
            Ok(el) => match number_at_spec(end, 1) {
                Err(e) => Err(e),
                Ok(ec) => if el < sl {
                    Ok(None)
                } else {
                    match number_at_spec(start, 2) {
                        Err(e) => Err(e),
                        Ok(count) => if !flag_or(bool_at_spec(start, 3), true) {
                            Ok(None)
                        } else {
                            let last = if ec <= 1 && el > sl {
                                (el - 1) as u32
                            } else {
                                el
                            };
                            Ok(Some((sl, last, count > 0)))
                        },
                    }
                },
            },
        },
    }
}

/// `m` with each line in `[lo, hi)` marked, covered when it was or `covered` is.
pub open spec fn mark_lines(m: Map<u32, bool>, lo: int, hi: int, covered: bool) -> Map<u32, bool> {
    Map::new(
        |l: u32| m.contains_key(l) || (lo <= l < hi),
        |l: u32|
            if lo <= l < hi {
                (m.contains_key(l) && m[l]) || covered
            } else {
                m[l]
            },
    )
}

/// The coverage of each line after the first `k` windows, or the first error.
pub open spec fn lines_upto(segs: Seq<Seq<JsonValue>>, k: nat) -> Result<Map<u32, bool>, Seq<char>>
    decreases k,
{
    if k == 0 {
        Ok(Map::empty())
    } else {
        match lines_upto(segs, (k - 1) as nat) {
            Err(e) => Err(e),
            Ok(m) => match window_lines(segs[k - 1], segs[k as int]) {
                Err(e) => Err(e),
                Ok(None) => Ok(m),
                Ok(Some(w)) => Ok(mark_lines(m, w.0 as int, w.1 + 1, w.2)),
            },
        }
    }
}

/// The coverage of each line that the segments of a file touch: covered when any
/// window over it is.
pub open spec fn segment_lines(segs: Seq<Seq<JsonValue>>) -> Result<Map<u32, bool>, Seq<char>> {
    lines_upto(segs, window_count(segs.len()))
}

/// The order of line numbers.
pub open spec fn line_order() -> spec_fn(u32, u32) -> bool {
    |a: u32, b: u32| a < b
}

/// The order of line numbers is a strict total order.
pub proof fn lemma_line_order_total()
    ensures
        strict_total(line_order()),
{
}

proof fn lemma_lines_stuck(segs: Seq<Seq<JsonValue>>, k: nat, n: nat)
    requires
        k <= n,
        lines_upto(segs, k) is Err,
    ensures
        lines_upto(segs, n) == lines_upto(segs, k),
    decreases n - k,
{
    if k < n {
        lemma_lines_stuck(segs, k, (n - 1) as nat);
    }
}

/// Marks line `l` in the sorted table, covered when it was or `covered` is.
pub fn mark_line(keys: &mut Vec<u32>, vals: &mut Vec<bool>, l: u32, covered: bool, Ghost(m): Ghost<Map<u32, bool>>)
    requires
        lists_by(old(keys)@, old(vals)@, m, line_order()),
    ensures
        lists_by(final(keys)@, final(vals)@, mark_lines(m, l as int, l + 1, covered), line_order()),
{
    proof {
        lemma_line_order_total();
    }
    let mut p: usize = 0;
    while p < keys.len() && keys[p] < l
        invariant
            p <= keys@.len(),
            lists_by(keys@, vals@, m, line_order()),
            forall|i: int| 0 <= i < p ==> keys@[i] < l,
        decreases keys@.len() - p,
    {
        p = p + 1;
    }
    if p < keys.len() && keys[p] == l {
        let v = vals[p] || covered;
        proof {
            lemma_lists_update(keys@, vals@, m, line_order(), p as int, v);
            assert(m.insert(l, v) =~= mark_lines(m, l as int, l + 1, covered));
        }
        vals.set(p, v);
    } else {
        proof {
            if p < keys@.len() {
                assert(l < keys@[p as int]);
            }
            lemma_lists_insert(keys@, vals@, m, line_order(), p as int, l, covered);
            assert(m.insert(l, covered) =~= mark_lines(m, l as int, l + 1, covered));
        }
        keys.insert(p, l);
        vals.insert(p, covered);
    }
}

/// The coverage of each line that a file's segments touch, in line order.
pub fn parse_lines(segments: &Vec<Vec<JsonValue>>) -> (r: Result<(Vec<u32>, Vec<bool>), CovgateError>)
    ensures
        match segment_lines(seg_views(segments@)) {
            Ok(m) => r matches Ok(t) && lists_by(t.0@, t.1@, m, line_order()),
            Err(msg) => r matches Err(e) && e.message@ == msg,
        },
{
    let ghost sv = seg_views(segments@);
    let mut keys: Vec<u32> = Vec::new();
    let mut vals: Vec<bool> = Vec::new();
    assert(lists_by(keys@, vals@, Map::<u32, bool>::empty(), line_order()));
    if segments.len() == 0 {
        return Ok((keys, vals));
    }
    let n = segments.len() - 1;
    let mut k: usize = 0;
    while k < n
        invariant
            n == segments@.len() - 1,
            k <= n,
            sv == seg_views(segments@),
            lines_upto(sv, k as nat) matches Ok(m) && lists_by(keys@, vals@, m, line_order()),
        decreases n - k,
    {
        let ghost m0 = lines_upto(sv, k as nat)->Ok_0;
        let start = &segments[k];
        let end = &segments[k + 1];
        assert(sv[k as int] == start@ && sv[k + 1] == end@);
        let sl = match number_at(start, 0) {
            Ok(v) => v,
            Err(e) => {
                proof {
                    lemma_lines_stuck(sv, (k + 1) as nat, n as nat);
                }
                return Err(e);
            },
        };
        let el = match number_at(end, 0) {
            Ok(v) => v,
            Err(e) => {
                proof {
                    lemma_lines_stuck(sv, (k + 1) as nat, n as nat);
                }
                return Err(e);
            },
        };
        let ec = match number_at(end, 1) {
            Ok(v) => v,
            Err(e) => {
                proof {
                    lemma_lines_stuck(sv, (k + 1) as nat, n as nat);
                }
                return Err(e);
            },
        };
        if el >= sl {
            let count = match number_at(start, 2) {
                Ok(v) => v,
                Err(e) => {
                    proof {
                        lemma_lines_stuck(sv, (k + 1) as nat, n as nat);
                    }
                    return Err(e);
                },
            };
            let has_count = unwrap_flag(bool_at(start, 3), true);
            if has_count {
                let covered = count > 0;
                let last = if ec <= 1 && el > sl {
                    el - 1
                } else {
                    el
                };
                let mut l: u64 = sl as u64;
                assert(mark_lines(m0, sl as int, sl as int, covered) =~= m0);
                while l <= last as u64
                    invariant
                        sl <= l <= last as u64 + 1,
                        last <= u32::MAX,
                        lists_by(keys@, vals@, mark_lines(m0, sl as int, l as int, covered), line_order()),
                    decreases last as u64 + 1 - l,
                {
                    let ghost before = mark_lines(m0, sl as int, l as int, covered);
                    mark_line(&mut keys, &mut vals, l as u32, covered, Ghost(before));
                    assert(mark_lines(before, l as int, l + 1, covered) =~= mark_lines(
                        m0,
                        sl as int,
                        l + 1,
                        covered,
                    ));
                    l = l + 1;
                }
            }
        }
        k = k + 1;
    }
    Ok((keys, vals))
}

/// The outcomes of one branch record: the true and false outcomes of a record
/// with both counts, else one outcome when it has a count.
pub open spec fn branch_outcomes(b: Seq<JsonValue>) -> Result<Seq<BranchRecord>, Seq<char>> {
    match number_at_spec(b, 0) {
        Err(e) => Err(e),
        Ok(ln) => match number_at_spec(b, 1) {
            Err(e) => Err(e),
            Ok(sc) => if b.len() >= 6 {
                match number_at_spec(b, 4) {
                    Err(e) => Err(e),
                    Ok(t) => match number_at_spec(b, 5) {
                        Err(e) => Err(e),
                        Ok(f) => Ok(
                            seq![
                                BranchRecord { line_number: ln, start_col: sc, covered: t > 0 },
                                BranchRecord { line_number: ln, start_col: sc, covered: f > 0 },
                            ],
                        ),
                    },
                }
            } else {
                match number_at_spec(b, 2) {
                    Err(e) => Err(e),
                    Ok(count) => if !flag_or(bool_at_spec(b, 3), true) {
                        Ok(seq![])
                    } else {
                        Ok(seq![BranchRecord { line_number: ln, start_col: sc, covered: count > 0 }])
                    },
                }
            },
        },
    }
}

/// The outcomes of the first `k` branch records, or the first error.
pub open spec fn branches_upto(bs: Seq<Seq<JsonValue>>, k: nat) -> Result<Seq<BranchRecord>, Seq<char>>
    decreases k,
{
    if k == 0 {
        Ok(seq![])
    } else {
        match branches_upto(bs, (k - 1) as nat) {
            Err(e) => Err(e),
            Ok(prev) => match branch_outcomes(bs[k - 1]) {
                Err(e) => Err(e),
                Ok(o) => Ok(prev + o),
            },
        }
    }
}

proof fn lemma_branches_stuck(bs: Seq<Seq<JsonValue>>, k: nat, n: nat)
    requires
        k <= n,
        branches_upto(bs, k) is Err,
    ensures
        branches_upto(bs, n) == branches_upto(bs, k),
    decreases n - k,
{
    if k < n {
        lemma_branches_stuck(bs, k, (n - 1) as nat);
    }
}

/// The branch outcomes of a file's branch records, in order.
pub fn parse_branches(branches: &Vec<Vec<JsonValue>>) -> (r: Result<Vec<BranchRecord>, CovgateError>)
    ensures
        match branches_upto(seg_views(branches@), branches@.len()) {
            Ok(bs) => r matches Ok(v) && v@ == bs,
            Err(m) => r matches Err(e) && e.message@ == m,
        },
{
    let ghost bv = seg_views(branches@);
    let mut out: Vec<BranchRecord> = Vec::new();
    let mut k: usize = 0;
    while k < branches.len()
        invariant
            k <= branches@.len(),
            bv == seg_views(branches@),
            branches_upto(bv, k as nat) == Ok::<Seq<BranchRecord>, Seq<char>>(out@),
        decreases branches@.len() - k,
    {
        let b = &branches[k];
        assert(bv[k as int] == b@);
        let ln = match number_at(b, 0) {
            Ok(v) => v,
            Err(e) => {
                proof {
                    lemma_branches_stuck(bv, (k + 1) as nat, branches@.len());
                }
                return Err(e);
            },
        };
        let sc = match number_at(b, 1) {
            Ok(v) => v,
            Err(e) => {
                proof {
                    lemma_branches_stuck(bv, (k + 1) as nat, branches@.len());
                }
                return Err(e);
            },
        };
        let ghost before = out@;
        if b.len() >= 6 {
            let t = match number_at(b, 4) {
                Ok(v) => v,
                Err(e) => {
                    proof {
                        lemma_branches_stuck(bv, (k + 1) as nat, branches@.len());
                    }
                    return Err(e);
                },
            };
            let f = match number_at(b, 5) {
                Ok(v) => v,
                Err(e) => {
                    proof {
                        lemma_branches_stuck(bv, (k + 1) as nat, branches@.len());
                    }
                    return Err(e);
                },
            };
            out.push(BranchRecord { line_number: ln, start_col: sc, covered: t > 0 });
            out.push(BranchRecord { line_number: ln, start_col: sc, covered: f > 0 });
            assert(out@ =~= before + seq![
                BranchRecord { line_number: ln, start_col: sc, covered: t > 0 },
                BranchRecord { line_number: ln, start_col: sc, covered: f > 0 },
            ]);
        } else {
            let count = match number_at(b, 2) {
                Ok(v) => v,
                Err(e) => {
                    proof {
                        lemma_branches_stuck(bv, (k + 1) as nat, branches@.len());
                    }
                    return Err(e);
                },
            };
            let has_count = unwrap_flag(bool_at(b, 3), true);
            if has_count {
                out.push(BranchRecord { line_number: ln, start_col: sc, covered: count > 0 });
                assert(out@ =~= before + seq![BranchRecord { line_number: ln, start_col: sc, covered: count > 0 }]);
            } else {
                assert(out@ =~= before + Seq::<BranchRecord>::empty());
            }
        }
        k = k + 1;
    }
    Ok(out)
}

} // verus!
