//! The coverage report of an LLVM export: per file, its regions, lines, branches
//! and functions, as opportunities and per-file totals.
use vstd::prelude::*;

use crate::coverage::llvm::{
    branches_upto, line_order, parse_branches, parse_lines, seg_views, segment_lines, segment_regions,
    segments_to_regions, BranchRecord, LlvmData, LlvmExport, LlvmFile, LlvmFunction, RegionRecord,
};
use crate::coverage::llvm_functions::{
    fkey_equal, fkey_less, fkey_order, fkey_view, function_entry, function_entry_of, identity_is_named,
    is_identity_named, lemma_fkey_order_total, FnKeyView, FunctionKey,
};
use crate::coverage::path::{relativize_absolute_path, relativized};
use crate::coverage::report::{
    count_covered_ops, count_ops, is_block, lemma_block_counts, lemma_count_ops_add, lemma_put_counts,
    lists_report_totals, lists_table, make_opportunity, present_totals, push_metric_totals, totals_count_ops, Totals,
    TotalsTable,
};
use crate::coverage::json::JsonValue;
use crate::error::CovgateError;
use crate::model::{
    opportunity_views, CoverageOpportunity, CoverageReport, FileTotals, FileTotalsList, MetricKind, OpportunityKind,
    OpportunityView,
};
use crate::sorted::{lemma_lists_insert, lemma_lists_update, lemma_listing, lemma_listing_exists, listing, lists_by};
use crate::text::{chars_equal, chars_of};

verus! {

/// How many of `bs` are true.
pub open spec fn count_true(bs: Seq<bool>) -> nat
    decreases bs.len(),
{
    if bs.len() == 0 {
        0
    } else {
        count_true(bs.drop_last()) + if bs.last() {
            1nat
        } else {
            0nat
        }
    }
}

/// The coverage flags of regions.
pub open spec fn region_flags(rs: Seq<RegionRecord>) -> Seq<bool> {
    rs.map_values(|r: RegionRecord| r.covered)
}

/// The coverage flags of branch outcomes.
pub open spec fn branch_flags(bs: Seq<BranchRecord>) -> Seq<bool> {
    bs.map_values(|b: BranchRecord| b.covered)
}

/// The region opportunities of a file.
pub open spec fn region_ops(p: Seq<char>, rs: Seq<RegionRecord>) -> Seq<OpportunityView> {
    rs.map_values(
        |r: RegionRecord|
            (
                OpportunityKind::Region,
                p,
                r.start_line,
                r.end_line,
                Some(r.start_col),
                Some(r.end_col),
                r.covered,
                None::<bool>,
                None::<Seq<char>>,
            ),
    )
}

/// The line opportunities of a file, in line order.
pub open spec fn line_ops(p: Seq<char>, lines: Seq<u32>, flags: Seq<bool>) -> Seq<OpportunityView> {
    Seq::new(
        lines.len(),
        |i: int|
            (
                OpportunityKind::Line,
                p,
                lines[i],
                lines[i],
                None::<u32>,
                None::<u32>,
                flags[i],
                None::<bool>,
                None::<Seq<char>>,
            ),
    )
}

/// The branch opportunities of a file.
pub open spec fn branch_ops(p: Seq<char>, bs: Seq<BranchRecord>) -> Seq<OpportunityView> {
    bs.map_values(
        |b: BranchRecord|
            (
                OpportunityKind::BranchOutcome,
                p,
                b.line_number,
                b.line_number,
                Some(b.start_col),
                Some(b.start_col),
                b.covered,
                None::<bool>,
                None::<Seq<char>>,
            ),
    )
}

/// A function key names a function of its own.
pub open spec fn key_is_named(k: FnKeyView) -> bool {
    k.0 && identity_is_named(k.1)
}

/// The opportunity of one function record.
pub open spec fn function_op(p: Seq<char>, k: FnKeyView, covered: bool) -> OpportunityView {
    (
        OpportunityKind::Function,
        p,
        k.2,
        k.4,
        Some(k.3),
        Some(k.5),
        covered,
        Some(key_is_named(k)),
        if key_is_named(k) {
            Some(k.1)
        } else {
            None
        },
    )
}

/// The function opportunities of a file, in key order.
pub open spec fn function_ops(p: Seq<char>, keys: Seq<FnKeyView>, flags: Seq<bool>) -> Seq<OpportunityView> {
    Seq::new(keys.len(), |i: int| function_op(p, keys[i], flags[i]))
}

/// How many of the first `n` keys are named, and how many of those are covered.
pub open spec fn named_counts(keys: Seq<FnKeyView>, flags: Seq<bool>, n: nat) -> (nat, nat)
    decreases n,
{
    if n == 0 {
        (0, 0)
    } else {
        let prev = named_counts(keys, flags, (n - 1) as nat);
        if key_is_named(keys[n - 1]) {
            (prev.0 + if flags[n - 1] {
                1nat
            } else {
                0nat
            }, prev.1 + 1)
        } else {
            prev
        }
    }
}

/// The file, key and coverage of each function record that has them, in order.
pub open spec fn function_entries(fs: Seq<LlvmFunction>, root: Seq<char>, known: Seq<Seq<char>>, k: nat) -> Seq<
    (Seq<char>, FnKeyView, bool),
>
    decreases k,
{
    if k == 0 {
        seq![]
    } else {
        let prev = function_entries(fs, root, known, (k - 1) as nat);
        match function_entry(fs[k - 1], root, known) {
            Some(e) => prev.push(e),
            None => prev,
        }
    }
}

/// The coverage of each key of file `p` among the first `k` entries: covered when
/// any record with that key is.
pub open spec fn records_for(entries: Seq<(Seq<char>, FnKeyView, bool)>, p: Seq<char>, k: nat) -> Map<FnKeyView, bool>
    decreases k,
{
    if k == 0 {
        Map::empty()
    } else {
        let m = records_for(entries, p, (k - 1) as nat);
        let e = entries[k - 1];
        if e.0 == p {
            m.insert(e.1, (m.contains_key(e.1) && m[e.1]) || e.2)
        } else {
            m
        }
    }
}

/// Some entry belongs to file `p`.
pub open spec fn has_records(entries: Seq<(Seq<char>, FnKeyView, bool)>, p: Seq<char>) -> bool {
    exists|i: int| 0 <= i < entries.len() && #[trigger] entries[i].0 == p
}

/// What has been read so far: the opportunities, and the totals of regions, lines,
/// branches, functions and named functions.
pub type LlvmState = (Seq<OpportunityView>, Totals, Totals, Totals, Totals, Totals);

pub open spec fn file_totals_of(flags: Seq<bool>) -> FileTotals {
    FileTotals { covered: count_true(flags) as usize, total: flags.len() as usize }
}

/// The totals with file `p` set to the totals of `flags`, when there are any.
pub open spec fn put_if_any(t: Totals, p: Seq<char>, flags: Seq<bool>) -> Totals {
    if flags.len() > 0 {
        t.insert(p, file_totals_of(flags))
    } else {
        t
    }
}

/// Reading one file: its regions, lines and branches from its segments and branch
/// records, and, the first time its path comes up, the function records of that
/// path.
pub open spec fn file_step(
    st: LlvmState,
    consumed: Set<Seq<char>>,
    file: LlvmFile,
    root: Seq<char>,
    entries: Seq<(Seq<char>, FnKeyView, bool)>,
) -> Result<(LlvmState, Set<Seq<char>>), Seq<char>> {
    let p = relativized(file.filename@, root);
    let segs = seg_views(file.segments@);
    match segment_regions(segs) {
        Err(e) => Err(e),
        Ok(rs) => match segment_lines(segs) {
            Err(e) => Err(e),
            Ok(lm) => match branches_upto(seg_views(file.branches@), file.branches@.len()) {
                Err(e) => Err(e),
                Ok(bs) => {
                    let ll = listing(lm, line_order());
                    let ops = st.0 + region_ops(p, rs) + line_ops(p, ll.0, ll.1) + branch_ops(p, bs);
                    let region = put_if_any(st.1, p, region_flags(rs));
                    let line = put_if_any(st.2, p, ll.1);
                    let branch = put_if_any(st.3, p, branch_flags(bs));
                    if !consumed.contains(p) && has_records(entries, p) {
                        let fl = listing(records_for(entries, p, entries.len()), fkey_order());
                        let nc = named_counts(fl.0, fl.1, fl.0.len());
                        let function = st.4.insert(p, file_totals_of(fl.1));
                        let named = if nc.1 > 0 {
                            st.5.insert(p, FileTotals { covered: nc.0 as usize, total: nc.1 as usize })
                        } else {
                            st.5
                        };
                        Ok(((ops + function_ops(p, fl.0, fl.1), region, line, branch, function, named), consumed.insert(p)))
                    } else {
                        Ok(((ops, region, line, branch, st.4, st.5), consumed))
                    }
                },
            },
        },
    }
}

/// The state after the first `k` files of one exported binary.
pub open spec fn files_upto(
    st: LlvmState,
    files: Seq<LlvmFile>,
    root: Seq<char>,
    entries: Seq<(Seq<char>, FnKeyView, bool)>,
    k: nat,
) -> Result<(LlvmState, Set<Seq<char>>), Seq<char>>
    decreases k,
{
    if k == 0 {
        Ok((st, Set::empty()))
    } else {
        match files_upto(st, files, root, entries, (k - 1) as nat) {
            Err(e) => Err(e),
            Ok(s) => file_step(s.0, s.1, files[k - 1], root, entries),
        }
    }
}

/// The normalized paths of the files of one exported binary.
pub open spec fn known_paths(files: Seq<LlvmFile>, root: Seq<char>) -> Seq<Seq<char>> {
    files.map_values(|f: LlvmFile| relativized(f.filename@, root))
}

/// Reading one exported binary.
pub open spec fn data_step(st: LlvmState, data: LlvmData, root: Seq<char>) -> Result<LlvmState, Seq<char>> {
    let known = known_paths(data.files@, root);
    let entries = function_entries(data.functions@, root, known, data.functions@.len());
    match files_upto(st, data.files@, root, entries, data.files@.len()) {
        Err(e) => Err(e),
        Ok(s) => Ok(s.0),
    }
}

/// The state after the first `k` exported binaries.
pub open spec fn export_upto(datas: Seq<LlvmData>, root: Seq<char>, k: nat) -> Result<LlvmState, Seq<char>>
    decreases k,
{
    if k == 0 {
        Ok((seq![], Map::empty(), Map::empty(), Map::empty(), Map::empty(), Map::empty()))
    } else {
        match export_upto(datas, root, (k - 1) as nat) {
            Err(e) => Err(e),
            Ok(st) => data_step(st, datas[k - 1], root),
        }
    }
}

/// The metrics of a state with their totals, in metric order.
pub open spec fn state_totals(st: LlvmState) -> Seq<(MetricKind, Totals)> {
    seq![
        (MetricKind::Region, st.1),
        (MetricKind::Line, st.2),
        (MetricKind::Branch, st.3),
        (MetricKind::Function, st.4),
        (MetricKind::NamedFunction, st.5),
    ]
}

/// `report` is what the state describes.
pub open spec fn is_report_of(report: CoverageReport, st: LlvmState) -> bool {
    &&& opportunity_views(report.opportunities@) == st.0
    &&& lists_report_totals(report.totals_by_file@, state_totals(st))
}

/// The entries as plain values.
pub open spec fn entry_views(v: Seq<(String, FunctionKey, bool)>) -> Seq<(Seq<char>, FnKeyView, bool)> {
    v.map_values(|e: (String, FunctionKey, bool)| (e.0@, fkey_view(e.1), e.2))
}

/// The file, key and coverage of each function record that has them.
fn collect_function_entries(functions: &Vec<LlvmFunction>, repo_root: &str, known: &Vec<String>) -> (r: Vec<
    (String, FunctionKey, bool),
>)
    ensures
        entry_views(r@) == function_entries(
            functions@,
            repo_root@,
            crate::config::string_views(known@),
            functions@.len(),
        ),
{
    let ghost kv = crate::config::string_views(known@);
    let mut r: Vec<(String, FunctionKey, bool)> = Vec::new();
    let mut i: usize = 0;
    while i < functions.len()
        invariant
            i <= functions@.len(),
            kv == crate::config::string_views(known@),
            entry_views(r@) == function_entries(functions@, repo_root@, kv, i as nat),
        decreases functions@.len() - i,
    {
        let ghost before = entry_views(r@);
        match function_entry_of(&functions[i], repo_root, known) {
            Some(e) => {
                r.push(e);
                assert(entry_views(r@) =~= before.push((e.0@, fkey_view(e.1), e.2)));
            },
            None => {},
        }
        i = i + 1;
    }
    r
}

/// A copy of a function key.
fn copy_key(k: &FunctionKey) -> (r: FunctionKey)
    ensures
        fkey_view(r) == fkey_view(*k),
{
    FunctionKey {
        named: k.named,
        name: k.name.clone(),
        start_line: k.start_line,
        start_col: k.start_col,
        end_line: k.end_line,
        end_col: k.end_col,
    }
}

pub open spec fn key_views(v: Seq<FunctionKey>) -> Seq<FnKeyView> {
    v.map_values(|k: FunctionKey| fkey_view(k))
}

/// The function records of file `p`, in key order, and whether there are any.
fn records_of_path(entries: &Vec<(String, FunctionKey, bool)>, p: &Vec<char>) -> (r: (Vec<FunctionKey>, Vec<bool>, bool))
    ensures
        lists_by(key_views(r.0@), r.1@, records_for(entry_views(entries@), p@, entries@.len()), fkey_order()),
        r.2 == has_records(entry_views(entries@), p@),
{
    let ghost ev = entry_views(entries@);
    let mut keys: Vec<FunctionKey> = Vec::new();
    let mut vals: Vec<bool> = Vec::new();
    let mut found = false;
    assert(key_views(keys@) =~= Seq::<FnKeyView>::empty());
    proof {
        lemma_fkey_order_total();
    }
    let mut i: usize = 0;
    while i < entries.len()
        invariant
            i <= entries@.len(),
            ev == entry_views(entries@),
            crate::sorted::strict_total(fkey_order()),
            lists_by(key_views(keys@), vals@, records_for(ev, p@, i as nat), fkey_order()),
            found == exists|j: int| 0 <= j < i && #[trigger] ev[j].0 == p@,
        decreases entries@.len() - i,
    {
        let ghost m = records_for(ev, p@, i as nat);
        let e = &entries[i];
        assert(ev[i as int] == (e.0@, fkey_view(e.1), e.2));
        let pc = chars_of(e.0.as_str());
        if chars_equal(pc.as_slice(), p.as_slice()) {
            found = true;
            let ghost ks = key_views(keys@);
            let mut pos: usize = 0;
            while pos < keys.len() && fkey_less(&keys[pos], &e.1)
                invariant
                    pos <= keys@.len(),
                    ks == key_views(keys@),
                    forall|j: int| 0 <= j < pos ==> fkey_order()(#[trigger] ks[j], fkey_view(e.1)),
                decreases keys@.len() - pos,
            {
                assert(ks[pos as int] == fkey_view(keys@[pos as int]));
                pos = pos + 1;
            }
            if pos < keys.len() && fkey_equal(&keys[pos], &e.1) {
                assert(ks[pos as int] == fkey_view(e.1));
                let v = vals[pos] || e.2;
                proof {
                    lemma_lists_update(ks, vals@, m, fkey_order(), pos as int, v);
                    assert(m.insert(fkey_view(e.1), v) =~= records_for(ev, p@, (i + 1) as nat));
                }
                vals.set(pos, v);
            } else {
                proof {
                    if pos < keys@.len() {
                        assert(ks[pos as int] == fkey_view(keys@[pos as int]));
                        assert(!fkey_order()(ks[pos as int], fkey_view(e.1)));
                        assert(ks[pos as int] != fkey_view(e.1));
                        assert(fkey_order()(fkey_view(e.1), ks[pos as int]));
                    }
                    lemma_lists_insert(ks, vals@, m, fkey_order(), pos as int, fkey_view(e.1), e.2);
                    assert(m.insert(fkey_view(e.1), e.2) =~= records_for(ev, p@, (i + 1) as nat));
                }
                let nk = copy_key(&e.1);
                keys.insert(pos, nk);
                vals.insert(pos, e.2);
                assert(key_views(keys@) =~= ks.insert(pos as int, fkey_view(e.1)));
            }
        } else {
            assert(records_for(ev, p@, (i + 1) as nat) == m);
        }
        i = i + 1;
    }
    proof {
        if found {
            let j = choose|j: int| 0 <= j < i && #[trigger] ev[j].0 == p@;
            assert(has_records(ev, p@));
        } else {
            assert(!has_records(ev, p@)) by {
                if has_records(ev, p@) {
                    let j = choose|j: int| 0 <= j < ev.len() && #[trigger] ev[j].0 == p@;
                    assert(ev[j].0 == p@);
                }
            }
        }
    }
    (keys, vals, found)
}

/// Appends the region opportunities of a file; returns how many are covered.
fn push_region_ops(ops: &mut Vec<CoverageOpportunity>, path: &String, rs: &Vec<RegionRecord>) -> (r: usize)
    ensures
        opportunity_views(final(ops)@) == opportunity_views(old(ops)@) + region_ops(path@, rs@),
        r == count_true(region_flags(rs@)),
{
    let ghost base = opportunity_views(ops@);
    let mut covered: usize = 0;
    let mut i: usize = 0;
    assert(rs@.subrange(0, 0) =~= Seq::<RegionRecord>::empty());
    assert(base + region_ops(path@, rs@.subrange(0, 0)) =~= base);
    while i < rs.len()
        invariant
            i <= rs@.len(),
            opportunity_views(ops@) == base + region_ops(path@, rs@.subrange(0, i as int)),
            covered == count_true(region_flags(rs@.subrange(0, i as int))),
            covered <= i,
        decreases rs@.len() - i,
    {
        let r = rs[i];
        let o = make_opportunity(
            OpportunityKind::Region,
            path,
            r.start_line,
            r.end_line,
            Some(r.start_col),
            Some(r.end_col),
            r.covered,
            None,
            None,
        );
        let ghost before = opportunity_views(ops@);
        ops.push(o);
        proof {
            assert(opportunity_views(ops@) =~= before.push(crate::model::opportunity_view(o)));
            assert(rs@.subrange(0, i + 1) =~= rs@.subrange(0, i as int).push(r));
            assert(region_ops(path@, rs@.subrange(0, i + 1)) =~= region_ops(path@, rs@.subrange(0, i as int)).push(
                crate::model::opportunity_view(o),
            ));
            assert(region_flags(rs@.subrange(0, i + 1)).drop_last() =~= region_flags(rs@.subrange(0, i as int)));
        }
        if r.covered {
            covered = covered + 1;
        }
        i = i + 1;
    }
    assert(rs@.subrange(0, rs@.len() as int) =~= rs@);
    covered
}

/// Appends the line opportunities of a file; returns how many are covered.
pub fn push_line_ops(ops: &mut Vec<CoverageOpportunity>, path: &String, lines: &Vec<u32>, flags: &Vec<bool>) -> (r: usize)
    requires
        lines@.len() == flags@.len(),
    ensures
        opportunity_views(final(ops)@) == opportunity_views(old(ops)@) + line_ops(path@, lines@, flags@),
        r == count_true(flags@),
{
    let ghost base = opportunity_views(ops@);
    let mut covered: usize = 0;
    let mut i: usize = 0;
    assert(base + line_ops(path@, lines@.subrange(0, 0), flags@.subrange(0, 0)) =~= base);
    while i < lines.len()
        invariant
            i <= lines@.len(),
            lines@.len() == flags@.len(),
            opportunity_views(ops@) == base + line_ops(path@, lines@.subrange(0, i as int), flags@.subrange(0, i as int)),
            covered == count_true(flags@.subrange(0, i as int)),
            covered <= i,
        decreases lines@.len() - i,
    {
        let o = make_opportunity(OpportunityKind::Line, path, lines[i], lines[i], None, None, flags[i], None, None);
        let ghost before = opportunity_views(ops@);
        ops.push(o);
        proof {
            assert(opportunity_views(ops@) =~= before.push(crate::model::opportunity_view(o)));
            assert(line_ops(path@, lines@.subrange(0, i + 1), flags@.subrange(0, i + 1)) =~= line_ops(
                path@,
                lines@.subrange(0, i as int),
                flags@.subrange(0, i as int),
            ).push(crate::model::opportunity_view(o)));
            assert(flags@.subrange(0, i + 1).drop_last() =~= flags@.subrange(0, i as int));
        }
        if flags[i] {
            covered = covered + 1;
        }
        i = i + 1;
    }
    assert(lines@.subrange(0, lines@.len() as int) =~= lines@);
    assert(flags@.subrange(0, flags@.len() as int) =~= flags@);
    covered
}

/// Appends the branch opportunities of a file; returns how many are covered.
fn push_branch_ops(ops: &mut Vec<CoverageOpportunity>, path: &String, bs: &Vec<BranchRecord>) -> (r: usize)
    ensures
        opportunity_views(final(ops)@) == opportunity_views(old(ops)@) + branch_ops(path@, bs@),
        r == count_true(branch_flags(bs@)),
{
    let ghost base = opportunity_views(ops@);
    let mut covered: usize = 0;
    let mut i: usize = 0;
    assert(bs@.subrange(0, 0) =~= Seq::<BranchRecord>::empty());
    assert(base + branch_ops(path@, bs@.subrange(0, 0)) =~= base);
    while i < bs.len()
        invariant
            i <= bs@.len(),
            opportunity_views(ops@) == base + branch_ops(path@, bs@.subrange(0, i as int)),
            covered == count_true(branch_flags(bs@.subrange(0, i as int))),
            covered <= i,
        decreases bs@.len() - i,
    {
        let b = bs[i];
        let o = make_opportunity(
            OpportunityKind::BranchOutcome,
            path,
            b.line_number,
            b.line_number,
            Some(b.start_col),
            Some(b.start_col),
            b.covered,
            None,
            None,
        );
        let ghost before = opportunity_views(ops@);
        ops.push(o);
        proof {
            assert(opportunity_views(ops@) =~= before.push(crate::model::opportunity_view(o)));
            assert(bs@.subrange(0, i + 1) =~= bs@.subrange(0, i as int).push(b));
            assert(branch_ops(path@, bs@.subrange(0, i + 1)) =~= branch_ops(path@, bs@.subrange(0, i as int)).push(
                crate::model::opportunity_view(o),
            ));
            assert(branch_flags(bs@.subrange(0, i + 1)).drop_last() =~= branch_flags(bs@.subrange(0, i as int)));
        }
        if b.covered {
            covered = covered + 1;
        }
        i = i + 1;
    }
    assert(bs@.subrange(0, bs@.len() as int) =~= bs@);
    covered
}

/// Appends the function opportunities of a file; returns how many are covered,
/// and how many are named and how many of those are covered.
fn push_function_ops(ops: &mut Vec<CoverageOpportunity>, path: &String, keys: &Vec<FunctionKey>, flags: &Vec<bool>) -> (r: (
    usize,
    usize,
    usize,
))
    requires
        keys@.len() == flags@.len(),
    ensures
        opportunity_views(final(ops)@) == opportunity_views(old(ops)@) + function_ops(path@, key_views(keys@), flags@),
        r.0 == count_true(flags@),
        (r.1 as nat, r.2 as nat) == named_counts(key_views(keys@), flags@, keys@.len()),
{
    let ghost base = opportunity_views(ops@);
    let ghost kv = key_views(keys@);
    let mut covered: usize = 0;
    let mut named_covered: usize = 0;
    let mut named_total: usize = 0;
    let mut i: usize = 0;
    assert(base + function_ops(path@, kv.subrange(0, 0), flags@.subrange(0, 0)) =~= base);
    while i < keys.len()
        invariant
            i <= keys@.len(),
            keys@.len() == flags@.len(),
            kv == key_views(keys@),
            opportunity_views(ops@) == base + function_ops(path@, kv.subrange(0, i as int), flags@.subrange(0, i as int)),
            covered == count_true(flags@.subrange(0, i as int)),
            covered <= i,
            (named_covered as nat, named_total as nat) == named_counts(kv, flags@, i as nat),
            named_covered <= named_total <= i,
        decreases keys@.len() - i,
    {
        let k = &keys[i];
        assert(kv[i as int] == fkey_view(*k));
        let is_named = k.named && is_identity_named(k.name.as_str());
        let identity = if is_named {
            Some(k.name.clone())
        } else {
            None
        };
        let o = make_opportunity(
            OpportunityKind::Function,
            path,
            k.start_line,
            k.end_line,
            Some(k.start_col),
            Some(k.end_col),
            flags[i],
            Some(is_named),
            identity,
        );
        let ghost before = opportunity_views(ops@);
        ops.push(o);
        proof {
            assert(crate::model::opportunity_view(o) == function_op(path@, kv[i as int], flags@[i as int]));
            assert(opportunity_views(ops@) =~= before.push(crate::model::opportunity_view(o)));
            assert(function_ops(path@, kv.subrange(0, i + 1), flags@.subrange(0, i + 1)) =~= function_ops(
                path@,
                kv.subrange(0, i as int),
                flags@.subrange(0, i as int),
            ).push(crate::model::opportunity_view(o)));
            assert(flags@.subrange(0, i + 1).drop_last() =~= flags@.subrange(0, i as int));
        }
        if flags[i] {
            covered = covered + 1;
        }
        if is_named {
            named_total = named_total + 1;
            if flags[i] {
                named_covered = named_covered + 1;
            }
        }
        i = i + 1;
    }
    assert(kv.subrange(0, kv.len() as int) =~= kv);
    assert(flags@.subrange(0, flags@.len() as int) =~= flags@);
    (covered, named_covered, named_total)
}

/// The opportunities and per-metric totals read so far.
pub struct LlvmBuilder {
    pub ops: Vec<CoverageOpportunity>,
    pub region: TotalsTable,
    pub line: TotalsTable,
    pub branch: TotalsTable,
    pub function: TotalsTable,
    pub named: TotalsTable,
}

/// The builder holds the state `st`.
pub open spec fn builder_holds(b: LlvmBuilder, st: LlvmState) -> bool {
    &&& opportunity_views(b.ops@) == st.0
    &&& lists_table(b.region, st.1)
    &&& lists_table(b.line, st.2)
    &&& lists_table(b.branch, st.3)
    &&& lists_table(b.function, st.4)
    &&& lists_table(b.named, st.5)
}

/// The paths in `v` are exactly those of `s`.
pub open spec fn lists_set(v: Seq<Vec<char>>, s: Set<Seq<char>>) -> bool {
    forall|p: Seq<char>| s.contains(p) <==> exists|i: int| 0 <= i < v.len() && #[trigger] v[i]@ == p
}

/// Whether `p` is among the paths of `v`.
fn contains_path(v: &Vec<Vec<char>>, p: &Vec<char>) -> (r: bool)
    ensures
        r == exists|i: int| 0 <= i < v@.len() && #[trigger] v@[i]@ == p@,
{
    let mut i: usize = 0;
    while i < v.len()
        invariant
            i <= v@.len(),
            forall|j: int| 0 <= j < i ==> #[trigger] v@[j]@ != p@,
        decreases v@.len() - i,
    {
        if chars_equal(v[i].as_slice(), p.as_slice()) {
            return true;
        }
        i = i + 1;
    }
    false
}

/// Reads one file into the builder.
fn read_file(
    b: &mut LlvmBuilder,
    consumed: &mut Vec<Vec<char>>,
    file: &LlvmFile,
    repo_root: &str,
    entries: &Vec<(String, FunctionKey, bool)>,
    Ghost(st): Ghost<LlvmState>,
    Ghost(cs): Ghost<Set<Seq<char>>>,
) -> (r: Result<(), CovgateError>)
    requires
        builder_holds(*old(b), st),
        lists_set(old(consumed)@, cs),
    ensures
        match file_step(st, cs, *file, repo_root@, entry_views(entries@)) {
            Ok(next) => r is Ok && builder_holds(*final(b), next.0) && lists_set(final(consumed)@, next.1),
            Err(m) => r matches Err(e) && e.message@ == m,
        },
{
    let ghost ev = entry_views(entries@);
    let path = relativize_absolute_path(file.filename.as_str(), repo_root);
    let pc = chars_of(path.as_str());
    let rs = match segments_to_regions(&file.segments) {
        Ok(v) => v,
        Err(e) => {
            return Err(e);
        },
    };
    let (lk, lv) = match parse_lines(&file.segments) {
        Ok(t) => t,
        Err(e) => {
            return Err(e);
        },
    };
    let bs = match parse_branches(&file.branches) {
        Ok(v) => v,
        Err(e) => {
            return Err(e);
        },
    };
    let ghost lm = segment_lines(seg_views(file.segments@))->Ok_0;
    proof {
        crate::coverage::llvm::lemma_line_order_total();
        lemma_listing(lk@, lv@, lm, line_order());
    }
    let region_covered = push_region_ops(&mut b.ops, &path, &rs);
    if rs.len() > 0 {
        b.region.put(pc.as_slice(), FileTotals { covered: region_covered, total: rs.len() }, Ghost(st.1));
    }
    let line_covered = push_line_ops(&mut b.ops, &path, &lk, &lv);
    if lk.len() > 0 {
        b.line.put(pc.as_slice(), FileTotals { covered: line_covered, total: lk.len() }, Ghost(st.2));
    }
    let branch_covered = push_branch_ops(&mut b.ops, &path, &bs);
    if bs.len() > 0 {
        b.branch.put(pc.as_slice(), FileTotals { covered: branch_covered, total: bs.len() }, Ghost(st.3));
    }
    proof {
        assert(region_flags(rs@).len() == rs@.len());
        assert(branch_flags(bs@).len() == bs@.len());
    }
    if contains_path(consumed, &pc) {
        return Ok(());
    }
    let (keys, vals, found) = records_of_path(entries, &pc);
    if !found {
        return Ok(());
    }
    proof {
        lemma_fkey_order_total();
        lemma_listing(key_views(keys@), vals@, records_for(ev, pc@, ev.len()), fkey_order());
        assert(key_views(keys@).len() == keys@.len());
    }
    let (function_covered, named_covered, named_total) = push_function_ops(&mut b.ops, &path, &keys, &vals);
    b.function.put(pc.as_slice(), FileTotals { covered: function_covered, total: keys.len() }, Ghost(st.4));
    if named_total > 0 {
        b.named.put(pc.as_slice(), FileTotals { covered: named_covered, total: named_total }, Ghost(st.5));
    }
    let ghost before = consumed@;
    consumed.push(pc);
    proof {
        assert forall|q: Seq<char>| cs.insert(pc@).contains(q) <==> exists|i: int|
            0 <= i < consumed@.len() && #[trigger] consumed@[i]@ == q by {
            if cs.contains(q) {
                let i = choose|i: int| 0 <= i < before.len() && #[trigger] before[i]@ == q;
                assert(consumed@[i]@ == q);
            }
            if q == pc@ {
                assert(consumed@[before.len() as int]@ == q);
            }
            if exists|i: int| 0 <= i < consumed@.len() && #[trigger] consumed@[i]@ == q {
                let i = choose|i: int| 0 <= i < consumed@.len() && #[trigger] consumed@[i]@ == q;
                if i < before.len() {
                    assert(before[i]@ == q);
                }
            }
        }
    }
    Ok(())
}

proof fn lemma_files_stuck(
    st: LlvmState,
    files: Seq<LlvmFile>,
    root: Seq<char>,
    entries: Seq<(Seq<char>, FnKeyView, bool)>,
    k: nat,
    n: nat,
)
    requires
        k <= n,
        files_upto(st, files, root, entries, k) is Err,
    ensures
        files_upto(st, files, root, entries, n) == files_upto(st, files, root, entries, k),
    decreases n - k,
{
    if k < n {
        lemma_files_stuck(st, files, root, entries, k, (n - 1) as nat);
    }
}

proof fn lemma_export_stuck(datas: Seq<LlvmData>, root: Seq<char>, k: nat, n: nat)
    requires
        k <= n,
        export_upto(datas, root, k) is Err,
    ensures
        export_upto(datas, root, n) == export_upto(datas, root, k),
    decreases n - k,
{
    if k < n {
        lemma_export_stuck(datas, root, k, (n - 1) as nat);
    }
}

/// Reads one exported binary into the builder.
fn read_data(b: &mut LlvmBuilder, data: &LlvmData, repo_root: &str, Ghost(st): Ghost<LlvmState>) -> (r: Result<
    (),
    CovgateError,
>)
    requires
        builder_holds(*old(b), st),
    ensures
        match data_step(st, *data, repo_root@) {
            Ok(next) => r is Ok && builder_holds(*final(b), next),
            Err(m) => r matches Err(e) && e.message@ == m,
        },
{
    let files = &data.files;
    let mut known: Vec<String> = Vec::new();
    let mut i: usize = 0;
    while i < files.len()
        invariant
            i <= files@.len(),
            crate::config::string_views(known@) == known_paths(files@, repo_root@).subrange(0, i as int),
        decreases files@.len() - i,
    {
        let ghost before = crate::config::string_views(known@);
        let kp = relativize_absolute_path(files[i].filename.as_str(), repo_root);
        assert(known_paths(files@, repo_root@)[i as int] == kp@);
        known.push(kp);
        assert(crate::config::string_views(known@) =~= before.push(kp@));
        assert(known_paths(files@, repo_root@).subrange(0, i + 1) =~= known_paths(files@, repo_root@).subrange(
            0,
            i as int,
        ).push(kp@));
        i = i + 1;
    }
    assert(known_paths(files@, repo_root@).subrange(0, files@.len() as int) =~= known_paths(files@, repo_root@));
    let entries = collect_function_entries(&data.functions, repo_root, &known);
    let ghost ev = entry_views(entries@);
    let mut consumed: Vec<Vec<char>> = Vec::new();
    let ghost mut cur: LlvmState = st;
    let ghost mut cs: Set<Seq<char>> = Set::empty();
    let mut k: usize = 0;
    while k < files.len()
        invariant
            k <= files@.len(),
            ev == entry_views(entries@),
            ev == function_entries(data.functions@, repo_root@, known_paths(files@, repo_root@), data.functions@.len()),
            files@ == data.files@,
            files_upto(st, files@, repo_root@, ev, k as nat) == Ok::<(LlvmState, Set<Seq<char>>), Seq<char>>((cur, cs)),
            builder_holds(*b, cur),
            lists_set(consumed@, cs),
        decreases files@.len() - k,
    {
        match read_file(b, &mut consumed, &files[k], repo_root, &entries, Ghost(cur), Ghost(cs)) {
            Ok(()) => {},
            Err(e) => {
                proof {
                    lemma_files_stuck(st, files@, repo_root@, ev, (k + 1) as nat, files@.len());
                }
                return Err(e);
            },
        }
        proof {
            let next = file_step(cur, cs, files@[k as int], repo_root@, ev)->Ok_0;
            cur = next.0;
            cs = next.1;
        }
        k = k + 1;
    }
    Ok(())
}

/// The coverage report of an LLVM export, with file paths made relative to
/// `repo_root`. Per file, in order: its regions (the windows between consecutive
/// segments that have a count, start a region and are not gaps), its lines (each
/// line a counted window touches, covered when any such window ran), its branch
/// outcomes, and, the first time its path comes up, its functions (the function
/// records of that file merged by identity, covered when any merged record ran).
/// Totals per file are kept for each metric that has any. Fails on the first
/// segment or branch record with a missing or out-of-range number.
pub fn parse_llvm_export(export: &LlvmExport, repo_root: &str) -> (r: Result<CoverageReport, CovgateError>)
    ensures
        match export_upto(export.data@, repo_root@, export.data@.len()) {
            Ok(st) => r matches Ok(report) && is_report_of(report, st),
            Err(m) => r matches Err(e) && e.message@ == m,
        },
{
    let mut b = LlvmBuilder {
        ops: Vec::new(),
        region: TotalsTable::new(),
        line: TotalsTable::new(),
        branch: TotalsTable::new(),
        function: TotalsTable::new(),
        named: TotalsTable::new(),
    };
    let ghost mut cur: LlvmState = (seq![], Map::empty(), Map::empty(), Map::empty(), Map::empty(), Map::empty());
    assert(opportunity_views(b.ops@) =~= Seq::<OpportunityView>::empty());
    let datas = &export.data;
    let mut k: usize = 0;
    while k < datas.len()
        invariant
            k <= datas@.len(),
            datas@ == export.data@,
            export_upto(datas@, repo_root@, k as nat) == Ok::<LlvmState, Seq<char>>(cur),
            builder_holds(b, cur),
        decreases datas@.len() - k,
    {
        match read_data(&mut b, &datas[k], repo_root, Ghost(cur)) {
            Ok(()) => {},
            Err(e) => {
                proof {
                    lemma_export_stuck(datas@, repo_root@, (k + 1) as nat, datas@.len());
                }
                return Err(e);
            },
        }
        proof {
            cur = data_step(cur, datas@[k as int], repo_root@)->Ok_0;
        }
        k = k + 1;
    }
    let tb: Vec<(MetricKind, FileTotalsList)> = Vec::new();
    let ghost ms0 = Seq::<(MetricKind, Totals)>::empty();
    let ghost ms1 = ms0.push((MetricKind::Region, cur.1));
    let ghost ms2 = ms1.push((MetricKind::Line, cur.2));
    let ghost ms3 = ms2.push((MetricKind::Branch, cur.3));
    let ghost ms4 = ms3.push((MetricKind::Function, cur.4));
    assert(lists_report_totals(tb@, ms0));
    let tb = push_metric_totals(tb, MetricKind::Region, &b.region, Ghost(cur.1), Ghost(ms0));
    let tb = push_metric_totals(tb, MetricKind::Line, &b.line, Ghost(cur.2), Ghost(ms1));
    let tb = push_metric_totals(tb, MetricKind::Branch, &b.branch, Ghost(cur.3), Ghost(ms2));
    let tb = push_metric_totals(tb, MetricKind::Function, &b.function, Ghost(cur.4), Ghost(ms3));
    let tb = push_metric_totals(tb, MetricKind::NamedFunction, &b.named, Ghost(cur.5), Ghost(ms4));
    assert(state_totals(cur) =~= ms4.push((MetricKind::NamedFunction, cur.5)));
    Ok(CoverageReport { opportunities: b.ops, totals_by_file: tb })
}


/// The lines from `lo` up to but not including `hi`.
pub open spec fn line_range_set(lo: int, hi: int) -> Set<u32> {
    Set::new(|l: u32| lo <= l < hi)
}

proof fn lemma_line_range_finite(lo: int, hi: int)
    ensures
        line_range_set(lo, hi).finite(),
    decreases hi - lo,
{
    if hi <= lo {
        assert(line_range_set(lo, hi) =~= Set::empty());
    } else {
        lemma_line_range_finite(lo, hi - 1);
        let x = hi - 1;
        if 0 <= x <= u32::MAX {
            assert(line_range_set(lo, hi) =~= line_range_set(lo, hi - 1).insert(x as u32));
        } else {
            assert(line_range_set(lo, hi) =~= line_range_set(lo, hi - 1));
        }
    }
}

proof fn lemma_lines_upto_finite(segs: Seq<Seq<JsonValue>>, k: nat)
    requires
        crate::coverage::llvm::lines_upto(segs, k) is Ok,
    ensures
        crate::coverage::llvm::lines_upto(segs, k)->Ok_0.dom().finite(),
    decreases k,
{
    if k > 0 {
        lemma_lines_upto_finite(segs, (k - 1) as nat);
        let m = crate::coverage::llvm::lines_upto(segs, (k - 1) as nat)->Ok_0;
        match crate::coverage::llvm::window_lines(segs[k - 1], segs[k as int]) {
            Ok(Some(w)) => {
                let lo = w.0 as int;
                let hi = w.1 + 1;
                lemma_line_range_finite(lo, hi);
                assert(crate::coverage::llvm::mark_lines(m, lo, hi, w.2).dom() =~= m.dom().union(
                    line_range_set(lo, hi),
                ));
            },
            _ => {},
        }
    }
}

proof fn lemma_records_for(entries: Seq<(Seq<char>, FnKeyView, bool)>, p: Seq<char>, k: nat)
    requires
        k <= entries.len(),
    ensures
        records_for(entries, p, k).dom().finite(),
        forall|i: int| 0 <= i < k && (#[trigger] entries[i]).0 == p ==> records_for(entries, p, k).contains_key(entries[i].1),
    decreases k,
{
    if k > 0 {
        lemma_records_for(entries, p, (k - 1) as nat);
    }
}

/// Reading a file whose path had no opportunity keeps the region, line, branch and
/// function totals counting their opportunities, and changes the opportunities of
/// no other path.
proof fn lemma_llvm_step_counts(
    st: LlvmState,
    consumed: Set<Seq<char>>,
    file: LlvmFile,
    root: Seq<char>,
    entries: Seq<(Seq<char>, FnKeyView, bool)>,
)
    requires
        file_step(st, consumed, file, root, entries) is Ok,
        totals_count_ops(st.1, st.0, OpportunityKind::Region),
        totals_count_ops(st.2, st.0, OpportunityKind::Line),
        totals_count_ops(st.3, st.0, OpportunityKind::BranchOutcome),
        totals_count_ops(st.4, st.0, OpportunityKind::Function),
        forall|k: OpportunityKind| #[trigger] count_ops(st.0, k, relativized(file.filename@, root)) == 0,
        file_step(st, consumed, file, root, entries)->Ok_0.0.0.len() <= usize::MAX,
    ensures
        ({
            let nx = file_step(st, consumed, file, root, entries)->Ok_0.0;
            &&& totals_count_ops(nx.1, nx.0, OpportunityKind::Region)
            &&& totals_count_ops(nx.2, nx.0, OpportunityKind::Line)
            &&& totals_count_ops(nx.3, nx.0, OpportunityKind::BranchOutcome)
            &&& totals_count_ops(nx.4, nx.0, OpportunityKind::Function)
            &&& forall|k: OpportunityKind, q: Seq<char>|
                q != relativized(file.filename@, root) ==> #[trigger] count_ops(nx.0, k, q) == count_ops(st.0, k, q)
        }),
{
    let p = relativized(file.filename@, root);
    let segs = seg_views(file.segments@);
    let rs = segment_regions(segs)->Ok_0;
    let lm = segment_lines(segs)->Ok_0;
    let bs = branches_upto(seg_views(file.branches@), file.branches@.len())->Ok_0;
    lemma_lines_upto_finite(segs, crate::coverage::llvm::window_count(segs.len()));
    crate::coverage::llvm::lemma_line_order_total();
    lemma_listing_exists(lm, line_order());
    let ll = listing(lm, line_order());
    let ro = region_ops(p, rs);
    let lo = line_ops(p, ll.0, ll.1);
    let bo = branch_ops(p, bs);
    let rf = region_flags(rs);
    let bf = branch_flags(bs);
    assert(is_block(ro, OpportunityKind::Region, p, rf));
    assert(is_block(lo, OpportunityKind::Line, p, ll.1));
    assert(is_block(bo, OpportunityKind::BranchOutcome, p, bf));
    let with_fns = !consumed.contains(p) && has_records(entries, p);
    let fl = listing(records_for(entries, p, entries.len()), fkey_order());
    let fo = if with_fns {
        function_ops(p, fl.0, fl.1)
    } else {
        seq![]
    };
    let ff: Seq<bool> = if with_fns {
        fl.1
    } else {
        seq![]
    };
    if with_fns {
        lemma_records_for(entries, p, entries.len());
        lemma_fkey_order_total();
        lemma_listing_exists(records_for(entries, p, entries.len()), fkey_order());
        let i = choose|i: int| 0 <= i < entries.len() && #[trigger] entries[i].0 == p;
        assert(records_for(entries, p, entries.len()).contains_key(entries[i].1));
        assert(fl.1.len() > 0);
    }
    assert(is_block(fo, OpportunityKind::Function, p, ff));
    let extra = ro + lo + bo + fo;
    let nx = file_step(st, consumed, file, root, entries)->Ok_0.0;
    assert(nx.0 =~= st.0 + extra);
    assert forall|k: OpportunityKind, q: Seq<char>| #![trigger count_ops(extra, k, q)] #![trigger count_covered_ops(extra, k, q)]
        count_ops(extra, k, q) == (if k == OpportunityKind::Region && q == p {
            rf.len()
        } else if k == OpportunityKind::Line && q == p {
            ll.1.len()
        } else if k == OpportunityKind::BranchOutcome && q == p {
            bf.len()
        } else if k == OpportunityKind::Function && q == p {
            ff.len()
        } else {
            0
        }) && count_covered_ops(extra, k, q) == (if k == OpportunityKind::Region && q == p {
            count_true(rf)
        } else if k == OpportunityKind::Line && q == p {
            count_true(ll.1)
        } else if k == OpportunityKind::BranchOutcome && q == p {
            count_true(bf)
        } else if k == OpportunityKind::Function && q == p {
            count_true(ff)
        } else {
            0
        }) by {
        lemma_count_ops_add(ro, lo, k, q);
        lemma_count_ops_add(ro + lo, bo, k, q);
        lemma_count_ops_add(ro + lo + bo, fo, k, q);
        lemma_block_counts(ro, OpportunityKind::Region, p, rf, k, q);
        lemma_block_counts(lo, OpportunityKind::Line, p, ll.1, k, q);
        lemma_block_counts(bo, OpportunityKind::BranchOutcome, p, bf, k, q);
        lemma_block_counts(fo, OpportunityKind::Function, p, ff, k, q);
    }
    assert forall|k: OpportunityKind, q: Seq<char>| q != p implies #[trigger] count_ops(nx.0, k, q) == count_ops(st.0, k, q) by {
        lemma_count_ops_add(st.0, extra, k, q);
        assert(count_ops(extra, k, q) == 0);
    }
    assert(count_ops(st.0, OpportunityKind::Region, p) == 0);
    assert(count_ops(st.0, OpportunityKind::Line, p) == 0);
    assert(count_ops(st.0, OpportunityKind::BranchOutcome, p) == 0);
    assert(count_ops(st.0, OpportunityKind::Function, p) == 0);
    assert(count_ops(extra, OpportunityKind::Region, p) == rf.len());
    assert(count_ops(extra, OpportunityKind::Line, p) == ll.1.len());
    assert(count_ops(extra, OpportunityKind::BranchOutcome, p) == bf.len());
    assert(count_ops(extra, OpportunityKind::Function, p) == ff.len());
    assert(count_covered_ops(extra, OpportunityKind::Region, p) == count_true(rf));
    assert(count_covered_ops(extra, OpportunityKind::Line, p) == count_true(ll.1));
    assert(count_covered_ops(extra, OpportunityKind::BranchOutcome, p) == count_true(bf));
    assert(count_covered_ops(extra, OpportunityKind::Function, p) == count_true(ff));
    assert forall|q: Seq<char>| q != p implies #[trigger] count_ops(extra, OpportunityKind::Region, q) == 0 by {
        assert(count_ops(extra, OpportunityKind::Region, q) == 0);
    }
    assert forall|q: Seq<char>| q != p implies #[trigger] count_ops(extra, OpportunityKind::Line, q) == 0 by {
        assert(count_ops(extra, OpportunityKind::Line, q) == 0);
    }
    assert forall|q: Seq<char>| q != p implies #[trigger] count_ops(extra, OpportunityKind::BranchOutcome, q) == 0 by {
        assert(count_ops(extra, OpportunityKind::BranchOutcome, q) == 0);
    }
    assert forall|q: Seq<char>| q != p implies #[trigger] count_ops(extra, OpportunityKind::Function, q) == 0 by {
        assert(count_ops(extra, OpportunityKind::Function, q) == 0);
    }
    lemma_put_counts(st.1, st.0, extra, OpportunityKind::Region, p, rf);
    lemma_put_counts(st.2, st.0, extra, OpportunityKind::Line, p, ll.1);
    lemma_put_counts(st.3, st.0, extra, OpportunityKind::BranchOutcome, p, bf);
    lemma_put_counts(st.4, st.0, extra, OpportunityKind::Function, p, ff);
}


proof fn lemma_file_step_grows(
    st: LlvmState,
    consumed: Set<Seq<char>>,
    file: LlvmFile,
    root: Seq<char>,
    entries: Seq<(Seq<char>, FnKeyView, bool)>,
)
    requires
        file_step(st, consumed, file, root, entries) is Ok,
    ensures
        st.0.len() <= file_step(st, consumed, file, root, entries)->Ok_0.0.0.len(),
{
}

proof fn lemma_files_grow(
    st: LlvmState,
    files: Seq<LlvmFile>,
    root: Seq<char>,
    entries: Seq<(Seq<char>, FnKeyView, bool)>,
    j: nat,
)
    requires
        files_upto(st, files, root, entries, j) is Ok,
    ensures
        st.0.len() <= files_upto(st, files, root, entries, j)->Ok_0.0.0.len(),
    decreases j,
{
    if j > 0 {
        lemma_files_grow(st, files, root, entries, (j - 1) as nat);
        let prev = files_upto(st, files, root, entries, (j - 1) as nat)->Ok_0;
        lemma_file_step_grows(prev.0, prev.1, files[j - 1], root, entries);
    }
}

/// The path of file `f` of exported binary `d`.
pub open spec fn llvm_file_path(datas: Seq<LlvmData>, root: Seq<char>, d: int, f: int) -> Seq<char> {
    relativized(datas[d].files@[f].filename@, root)
}

/// No two files of the export, in one binary or in two, have the same path.
pub open spec fn llvm_paths_distinct(datas: Seq<LlvmData>, root: Seq<char>) -> bool {
    forall|a: int, f: int, b: int, g: int|
        0 <= a < datas.len() && 0 <= f < datas[a].files@.len() && 0 <= b < datas.len() && 0 <= g < datas[b].files@.len()
            && (a != b || f != g) ==> #[trigger] llvm_file_path(datas, root, a, f) != #[trigger] llvm_file_path(
            datas,
            root,
            b,
            g,
        )
}

/// After the first `j` files of binary `d`, the totals still count the
/// opportunities, and only the paths of those files have gained any.
proof fn lemma_llvm_files_counts(
    st: LlvmState,
    datas: Seq<LlvmData>,
    root: Seq<char>,
    d: int,
    entries: Seq<(Seq<char>, FnKeyView, bool)>,
    j: nat,
)
    requires
        0 <= d < datas.len(),
        j <= datas[d].files@.len(),
        llvm_paths_distinct(datas, root),
        files_upto(st, datas[d].files@, root, entries, j) is Ok,
        totals_count_ops(st.1, st.0, OpportunityKind::Region),
        totals_count_ops(st.2, st.0, OpportunityKind::Line),
        totals_count_ops(st.3, st.0, OpportunityKind::BranchOutcome),
        totals_count_ops(st.4, st.0, OpportunityKind::Function),
        forall|f: int, k: OpportunityKind|
            0 <= f < datas[d].files@.len() ==> #[trigger] count_ops(st.0, k, llvm_file_path(datas, root, d, f)) == 0,
        files_upto(st, datas[d].files@, root, entries, j)->Ok_0.0.0.len() <= usize::MAX,
    ensures
        ({
            let nx = files_upto(st, datas[d].files@, root, entries, j)->Ok_0.0;
            &&& totals_count_ops(nx.1, nx.0, OpportunityKind::Region)
            &&& totals_count_ops(nx.2, nx.0, OpportunityKind::Line)
            &&& totals_count_ops(nx.3, nx.0, OpportunityKind::BranchOutcome)
            &&& totals_count_ops(nx.4, nx.0, OpportunityKind::Function)
            &&& forall|k: OpportunityKind, q: Seq<char>|
                (forall|f: int| 0 <= f < j ==> llvm_file_path(datas, root, d, f) != q) ==> #[trigger] count_ops(
                    nx.0,
                    k,
                    q,
                ) == count_ops(st.0, k, q)
        }),
    decreases j,
{
    let files = datas[d].files@;
    if j > 0 {
        let prev = files_upto(st, files, root, entries, (j - 1) as nat)->Ok_0;
        lemma_file_step_grows(prev.0, prev.1, files[j - 1], root, entries);
        lemma_llvm_files_counts(st, datas, root, d, entries, (j - 1) as nat);
        let p = llvm_file_path(datas, root, d, j - 1);
        assert forall|k: OpportunityKind| #[trigger] count_ops(prev.0.0, k, p) == 0 by {
            assert forall|f: int| 0 <= f < j - 1 implies llvm_file_path(datas, root, d, f) != p by {
                assert(llvm_file_path(datas, root, d, f) != llvm_file_path(datas, root, d, j - 1));
            }
            assert(count_ops(st.0, k, p) == 0);
        }
        lemma_llvm_step_counts(prev.0, prev.1, files[j - 1], root, entries);
        let nx = files_upto(st, files, root, entries, j)->Ok_0.0;
        assert forall|k: OpportunityKind, q: Seq<char>|
            (forall|f: int| 0 <= f < j ==> llvm_file_path(datas, root, d, f) != q) implies #[trigger] count_ops(
                nx.0,
                k,
                q,
            ) == count_ops(st.0, k, q) by {
            assert(llvm_file_path(datas, root, d, j - 1) != q);
            assert(count_ops(nx.0, k, q) == count_ops(prev.0.0, k, q));
            assert forall|f: int| 0 <= f < j - 1 implies llvm_file_path(datas, root, d, f) != q by {
                assert(llvm_file_path(datas, root, d, f) != q);
            }
        }
    }
}

/// After the first `n` binaries, the totals count the opportunities, and a path
/// that none of their files has has no opportunity.
proof fn lemma_llvm_counts_upto(datas: Seq<LlvmData>, root: Seq<char>, n: nat)
    requires
        n <= datas.len(),
        llvm_paths_distinct(datas, root),
        export_upto(datas, root, n) is Ok,
        export_upto(datas, root, n)->Ok_0.0.len() <= usize::MAX,
    ensures
        ({
            let st = export_upto(datas, root, n)->Ok_0;
            &&& totals_count_ops(st.1, st.0, OpportunityKind::Region)
            &&& totals_count_ops(st.2, st.0, OpportunityKind::Line)
            &&& totals_count_ops(st.3, st.0, OpportunityKind::BranchOutcome)
            &&& totals_count_ops(st.4, st.0, OpportunityKind::Function)
            &&& forall|k: OpportunityKind, q: Seq<char>|
                (forall|a: int, f: int|
                    0 <= a < n && 0 <= f < datas[a].files@.len() ==> llvm_file_path(datas, root, a, f) != q)
                    ==> #[trigger] count_ops(st.0, k, q) == 0
        }),
    decreases n,
{
    let st = export_upto(datas, root, n)->Ok_0;
    if n == 0 {
        assert forall|k: OpportunityKind, q: Seq<char>| #[trigger] count_ops(st.0, k, q) == 0 by {}
    } else {
        let a = n - 1;
        let prev = export_upto(datas, root, (n - 1) as nat)->Ok_0;
        let data = datas[a];
        let known = known_paths(data.files@, root);
        let entries = function_entries(data.functions@, root, known, data.functions@.len());
        lemma_files_grow(prev, data.files@, root, entries, data.files@.len());
        lemma_llvm_counts_upto(datas, root, (n - 1) as nat);
        assert forall|f: int, k: OpportunityKind| 0 <= f < datas[a].files@.len() implies #[trigger] count_ops(
            prev.0,
            k,
            llvm_file_path(datas, root, a, f),
        ) == 0 by {
            let q = llvm_file_path(datas, root, a, f);
            assert forall|b: int, g: int| 0 <= b < n - 1 && 0 <= g < datas[b].files@.len() implies llvm_file_path(
                datas,
                root,
                b,
                g,
            ) != q by {}
        }
        lemma_llvm_files_counts(prev, datas, root, a, entries, data.files@.len());
        assert forall|k: OpportunityKind, q: Seq<char>|
            (forall|b: int, g: int|
                0 <= b < n && 0 <= g < datas[b].files@.len() ==> llvm_file_path(datas, root, b, g) != q) implies #[trigger] count_ops(
            st.0,
            k,
            q,
        ) == 0 by {
            assert forall|g: int| 0 <= g < datas[a].files@.len() implies llvm_file_path(datas, root, a, g) != q by {}
            assert(count_ops(st.0, k, q) == count_ops(prev.0, k, q));
        }
    }
}

/// When the export reads without error and no two of its files, in one binary or
/// in two, name the same path, each file's region, line, branch and function
/// totals are non-empty, count no more covered than there are, and equal the
/// number of that file's opportunities of that kind and of those covered; a file
/// without totals for a metric has no opportunity of its kind.
pub proof fn lemma_llvm_totals_count(datas: Seq<LlvmData>, root: Seq<char>)
    requires
        llvm_paths_distinct(datas, root),
        export_upto(datas, root, datas.len()) is Ok,
        export_upto(datas, root, datas.len())->Ok_0.0.len() <= usize::MAX,
    ensures
        ({
            let st = export_upto(datas, root, datas.len())->Ok_0;
            &&& totals_count_ops(st.1, st.0, OpportunityKind::Region)
            &&& totals_count_ops(st.2, st.0, OpportunityKind::Line)
            &&& totals_count_ops(st.3, st.0, OpportunityKind::BranchOutcome)
            &&& totals_count_ops(st.4, st.0, OpportunityKind::Function)
        }),
{
    lemma_llvm_counts_upto(datas, root, datas.len());
}

} // verus!
