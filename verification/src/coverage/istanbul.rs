//! Istanbul coverage (`coverage-final.json`): lines from statements, branch
//! outcomes from branch maps, and functions from function maps.
use vstd::prelude::*;

use crate::coverage::llvm_report::{count_true, lists_set};
use crate::coverage::path::{lexical_normalize, lexical_normalized, relativize_absolute_path, relativized};
use crate::coverage::report::{
    count_covered_ops, count_ops, is_block, lemma_block_counts, lemma_count_ops_add, lemma_put_counts,
    lists_report_totals, lists_table, make_opportunity, push_metric_totals, totals_count_ops, Totals, TotalsTable,
};
use crate::model::{
    opportunity_views, CoverageOpportunity, CoverageReport, FileTotals, FileTotalsList, MetricKind, OpportunityKind,
    OpportunityView,
};
use crate::sorted::{
    lemma_lists_insert, lemma_lists_update, lemma_listing, lemma_listing_exists, listing, lists_by, strict_total,
};
use crate::text::{chars_of, is_prefix, is_suffix, str_equal, string_from_chars};

verus! {

/// A position whose line is known.
#[derive(Clone, Copy, Debug, PartialEq, Eq, Structural)]
pub struct IstanbulPosition {
    pub line: u32,
    pub column: Option<u32>,
}

/// A range between two known positions.
#[derive(Clone, Copy, Debug, PartialEq, Eq, Structural)]
pub struct IstanbulSpan {
    pub start: IstanbulPosition,
    pub end: IstanbulPosition,
}

/// A position whose line may be missing.
#[derive(Clone, Copy, Debug, PartialEq, Eq, Structural)]
pub struct IstanbulOptionalPosition {
    pub line: Option<u32>,
    pub column: Option<u32>,
}

/// A range between two positions that may be incomplete.
#[derive(Clone, Copy, Debug, PartialEq, Eq, Structural)]
pub struct IstanbulOptionalSpan {
    pub start: IstanbulOptionalPosition,
    pub end: IstanbulOptionalPosition,
}

/// A function of a file: its name, if any, and where it is.
pub struct IstanbulFunctionMap {
    pub name: Option<String>,
    pub loc: IstanbulSpan,
}

/// A branch of a file: its line and range, if given, and the range of each outcome.
pub struct IstanbulBranchMap {
    pub line: Option<u32>,
    pub loc: Option<IstanbulOptionalSpan>,
    pub locations: Vec<IstanbulOptionalSpan>,
}

/// The coverage of one file, each map keyed by the entity's id.
pub struct IstanbulFileCoverage {
    pub statement_map: Vec<(String, IstanbulSpan)>,
    pub s: Vec<(String, u64)>,
    pub branch_map: Vec<(String, IstanbulBranchMap)>,
    pub b: Vec<(String, Vec<u64>)>,
    pub fn_map: Vec<(String, IstanbulFunctionMap)>,
    pub f: Vec<(String, u64)>,
}

/// `s` with each backslash turned into a slash.
pub open spec fn slashes(s: Seq<char>) -> Seq<char> {
    s.map_values(|c: char| if c == '\\' { '/' } else { c })
}

/// `s` with each backslash turned into a slash.
pub fn forward_slashes(s: &str) -> (r: Vec<char>)
    ensures
        r@ == slashes(s@),
{
    let v = chars_of(s);
    let mut r: Vec<char> = Vec::new();
    let mut i: usize = 0;
    while i < v.len()
        invariant
            i <= v@.len(),
            r@ == slashes(v@).subrange(0, i as int),
        decreases v@.len() - i,
    {
        r.push(if v[i] == '\\' { '/' } else { v[i] });
        assert(r@ =~= slashes(v@).subrange(0, i + 1));
        i = i + 1;
    }
    assert(slashes(v@).subrange(0, v@.len() as int) =~= slashes(v@));
    r
}

/// The path of a file in an Istanbul report: empty when it is the repository root,
/// normalized relative to the root when it lies under it, else as made relative
/// to the root.
pub open spec fn istanbul_path(value: Seq<char>, root: Seq<char>) -> Seq<char> {
    let nv = slashes(value);
    let rs = slashes(root);
    let prefix = rs.push('/');
    if nv == rs {
        seq![]
    } else if is_prefix(prefix, nv) {
        lexical_normalized(nv.subrange(prefix.len() as int, nv.len() as int))
    } else {
        relativized(nv, root)
    }
}

/// The path of a file in an Istanbul report.
pub fn normalize_istanbul_path(value: &str, repo_root: &str) -> (r: String)
    ensures
        r@ == istanbul_path(value@, repo_root@),
{
    let nv = forward_slashes(value);
    let mut prefix = forward_slashes(repo_root);
    if crate::text::chars_equal(nv.as_slice(), prefix.as_slice()) {
        return String::new();
    }
    prefix.push('/');
    if crate::text::matches_at(nv.as_slice(), 0, prefix.as_slice()) {
        assert(nv@.subrange(0, nv@.len() as int) =~= nv@);
        let rest = crate::text::slice_chars(nv.as_slice(), prefix.len(), nv.len());
        let rs = string_from_chars(rest.as_slice());
        return lexical_normalize(rs.as_str());
    }
    assert(nv@.subrange(0, nv@.len() as int) =~= nv@);
    let ns = string_from_chars(nv.as_slice());
    relativize_absolute_path(ns.as_str(), repo_root)
}

/// A function name that names a function of its own: present, not empty, not
/// `<anonymous>`, and not an `(anonymous ...)` placeholder.
pub open spec fn istanbul_named(name: Option<Seq<char>>) -> bool {
    match name {
        None => false,
        Some(n) => !(n.len() == 0 || n == "<anonymous>"@ || (is_prefix("(anonymous"@, n) && n.len() > 0 && n.last()
            == ')')),
    }
}

/// Whether an Istanbul function name names a function of its own.
pub fn is_istanbul_function_named(name: Option<&str>) -> (r: bool)
    ensures
        r == istanbul_named(
            match name {
                Some(n) => Some(n@),
                None => None,
            },
        ),
{
    match name {
        None => false,
        Some(n) => {
            let v = chars_of(n);
            let p = chars_of("(anonymous");
            proof {
                reveal_strlit("(anonymous");
                reveal_strlit("<anonymous>");
            }
            if v.len() == 0 || str_equal(n, "<anonymous>") {
                return false;
            }
            let starts = crate::text::matches_at(v.as_slice(), 0, p.as_slice());
            assert(v@.subrange(0, v@.len() as int) =~= v@);
            !(starts && v[v.len() - 1] == ')')
        },
    }
}

/// The value of the first entry named `id`.
pub open spec fn lookup_count(entries: Seq<(String, u64)>, id: Seq<char>) -> Option<u64>
    decreases entries.len(),
{
    if entries.len() == 0 {
        None
    } else if entries[0].0@ == id {
        Some(entries[0].1)
    } else {
        lookup_count(entries.drop_first(), id)
    }
}

/// The counts of the first entry named `id`, or none.
pub open spec fn lookup_counts(entries: Seq<(String, Vec<u64>)>, id: Seq<char>) -> Seq<u64>
    decreases entries.len(),
{
    if entries.len() == 0 {
        seq![]
    } else if entries[0].0@ == id {
        entries[0].1@
    } else {
        lookup_counts(entries.drop_first(), id)
    }
}

/// The count of `id`, or zero.
fn count_of(entries: &Vec<(String, u64)>, id: &String) -> (r: u64)
    ensures
        r == match lookup_count(entries@, id@) {
            Some(c) => c,
            None => 0,
        },
{
    let mut i: usize = 0;
    assert(entries@.subrange(0, entries@.len() as int) =~= entries@);
    while i < entries.len()
        invariant
            i <= entries@.len(),
            lookup_count(entries@, id@) == lookup_count(entries@.subrange(i as int, entries@.len() as int), id@),
        decreases entries@.len() - i,
    {
        let ghost rest = entries@.subrange(i as int, entries@.len() as int);
        assert(rest[0] == entries@[i as int]);
        if str_equal(entries[i].0.as_str(), id.as_str()) {
            return entries[i].1;
        }
        assert(rest.drop_first() =~= entries@.subrange(i + 1, entries@.len() as int));
        i = i + 1;
    }
    0
}

/// The counts of `id`, or none.
fn counts_of(entries: &Vec<(String, Vec<u64>)>, id: &String) -> (r: Vec<u64>)
    ensures
        r@ == lookup_counts(entries@, id@),
{
    let mut i: usize = 0;
    assert(entries@.subrange(0, entries@.len() as int) =~= entries@);
    while i < entries.len()
        invariant
            i <= entries@.len(),
            lookup_counts(entries@, id@) == lookup_counts(entries@.subrange(i as int, entries@.len() as int), id@),
        decreases entries@.len() - i,
    {
        let ghost rest = entries@.subrange(i as int, entries@.len() as int);
        assert(rest[0] == entries@[i as int]);
        if str_equal(entries[i].0.as_str(), id.as_str()) {
            return entries[i].1.clone();
        }
        assert(rest.drop_first() =~= entries@.subrange(i + 1, entries@.len() as int));
        i = i + 1;
    }
    Vec::new()
}

pub open spec fn col_or_zero(c: Option<u32>) -> u32 {
    match c {
        Some(v) => v,
        None => 0,
    }
}

/// The statement positions of the first `k` statements, each covered when any
/// statement that starts there ran.
pub open spec fn statement_lines(cov: IstanbulFileCoverage, k: nat) -> Map<(u32, u32), bool>
    decreases k,
{
    if k == 0 {
        Map::empty()
    } else {
        let m = statement_lines(cov, (k - 1) as nat);
        let e = cov.statement_map@[k - 1];
        let key = (e.1.start.line, col_or_zero(e.1.start.column));
        let covered = match lookup_count(cov.s@, e.0@) {
            Some(h) => h > 0,
            None => false,
        };
        m.insert(key, (m.contains_key(key) && m[key]) || covered)
    }
}

/// Positions order by line, then column.
pub open spec fn position_order() -> spec_fn((u32, u32), (u32, u32)) -> bool {
    |a: (u32, u32), b: (u32, u32)| a.0 < b.0 || (a.0 == b.0 && a.1 < b.1)
}

proof fn lemma_position_order_total()
    ensures
        strict_total(position_order()),
{
}

/// A branch outcome.
#[derive(Clone, Copy, Debug, PartialEq, Eq, Structural)]
pub struct OutcomeRecord {
    pub start_line: u32,
    pub start_col: u32,
    pub end_line: u32,
    pub end_col: u32,
    pub covered: bool,
}

pub open spec fn or_opt(a: Option<u32>, b: Option<u32>) -> Option<u32> {
    match a {
        Some(x) => Some(x),
        None => b,
    }
}

pub open spec fn opt_start_line(o: Option<IstanbulOptionalSpan>) -> Option<u32> {
    match o {
        Some(l) => l.start.line,
        None => None,
    }
}

pub open spec fn opt_start_col(o: Option<IstanbulOptionalSpan>) -> Option<u32> {
    match o {
        Some(l) => l.start.column,
        None => None,
    }
}

pub open spec fn opt_end_line(o: Option<IstanbulOptionalSpan>) -> Option<u32> {
    match o {
        Some(l) => l.end.line,
        None => None,
    }
}

pub open spec fn opt_end_col(o: Option<IstanbulOptionalSpan>) -> Option<u32> {
    match o {
        Some(l) => l.end.column,
        None => None,
    }
}

/// The outcome at `location`, the `index`-th of a branch: its range filled in from
/// the branch's own range and line where it is incomplete; none when no start line
/// can be found.
pub open spec fn location_outcome(
    line: Option<u32>,
    loc: Option<IstanbulOptionalSpan>,
    location: IstanbulOptionalSpan,
    counts: Seq<u64>,
    index: int,
) -> Option<OutcomeRecord> {
    let fsl = or_opt(or_opt(opt_start_line(loc), line), opt_end_line(loc));
    let fsc = opt_start_col(loc);
    let fel = or_opt(opt_end_line(loc), fsl);
    let fec = opt_end_col(loc);
    let sl = or_opt(location.start.line, fsl);
    let sc = or_opt(location.start.column, fsc);
    let el = or_opt(or_opt(location.end.line, fel), sl);
    let ec = or_opt(or_opt(location.end.column, fec), sc);
    match sl {
        None => None,
        Some(s) => Some(
            OutcomeRecord {
                start_line: s,
                start_col: col_or_zero(sc),
                end_line: match el {
                    Some(e) => e,
                    None => s,
                },
                end_col: col_or_zero(ec),
                covered: (if 0 <= index < counts.len() {
                    counts[index]
                } else {
                    0
                }) > 0,
            },
        ),
    }
}

/// The outcomes of the first `k` locations of a branch.
pub open spec fn branch_outcomes_upto(bm: IstanbulBranchMap, counts: Seq<u64>, k: nat) -> Seq<OutcomeRecord>
    decreases k,
{
    if k == 0 {
        seq![]
    } else {
        let prev = branch_outcomes_upto(bm, counts, (k - 1) as nat);
        match location_outcome(bm.line, bm.loc, bm.locations@[k - 1], counts, k - 1) {
            Some(o) => prev.push(o),
            None => prev,
        }
    }
}

/// The outcomes of the first `k` branches of a file.
pub open spec fn file_outcomes(cov: IstanbulFileCoverage, k: nat) -> Seq<OutcomeRecord>
    decreases k,
{
    if k == 0 {
        seq![]
    } else {
        let e = cov.branch_map@[k - 1];
        file_outcomes(cov, (k - 1) as nat) + branch_outcomes_upto(
            e.1,
            lookup_counts(cov.b@, e.0@),
            e.1.locations@.len(),
        )
    }
}

/// The function opportunity of a function map entry.
pub open spec fn function_view(p: Seq<char>, id: Seq<char>, fm: IstanbulFunctionMap, f: Seq<(String, u64)>) -> OpportunityView {
    let named = istanbul_named(
        match fm.name {
            Some(n) => Some(n@),
            None => None,
        },
    );
    (
        OpportunityKind::Function,
        p,
        fm.loc.start.line,
        fm.loc.end.line,
        Some(col_or_zero(fm.loc.start.column)),
        Some(col_or_zero(fm.loc.end.column)),
        match lookup_count(f, id) {
            Some(c) => c > 0,
            None => false,
        },
        Some(named),
        if named {
            Some(id)
        } else {
            None
        },
    )
}

/// The line opportunities of positions, in order.
pub open spec fn position_ops(p: Seq<char>, keys: Seq<(u32, u32)>, flags: Seq<bool>) -> Seq<OpportunityView> {
    Seq::new(
        keys.len(),
        |i: int|
            (
                OpportunityKind::Line,
                p,
                keys[i].0,
                keys[i].0,
                Some(keys[i].1),
                Some(keys[i].1),
                flags[i],
                None::<bool>,
                None::<Seq<char>>,
            ),
    )
}

/// The branch opportunities of outcomes, in order.
pub open spec fn outcome_ops(p: Seq<char>, os: Seq<OutcomeRecord>) -> Seq<OpportunityView> {
    os.map_values(
        |o: OutcomeRecord|
            (
                OpportunityKind::BranchOutcome,
                p,
                o.start_line,
                o.end_line,
                Some(o.start_col),
                Some(o.end_col),
                o.covered,
                None::<bool>,
                None::<Seq<char>>,
            ),
    )
}

/// The function opportunities of a file, in order.
pub open spec fn function_views(p: Seq<char>, cov: IstanbulFileCoverage) -> Seq<OpportunityView> {
    Seq::new(cov.fn_map@.len(), |i: int| function_view(p, cov.fn_map@[i].0@, cov.fn_map@[i].1, cov.f@))
}

/// The covered flags of opportunities.
pub open spec fn view_flags(vs: Seq<OpportunityView>) -> Seq<bool> {
    vs.map_values(|v: OpportunityView| v.6)
}

/// The covered flags of named-function opportunities.
pub open spec fn named_flags(vs: Seq<OpportunityView>) -> Seq<bool>
    decreases vs.len(),
{
    if vs.len() == 0 {
        seq![]
    } else if vs.last().7 == Some(true) {
        named_flags(vs.drop_last()).push(vs.last().6)
    } else {
        named_flags(vs.drop_last())
    }
}

/// What has been read: the opportunities, and the totals of lines, branches,
/// functions and named functions.
pub type IstanbulState = (Seq<OpportunityView>, Totals, Totals, Totals, Totals);

pub open spec fn totals_of_flags(flags: Seq<bool>) -> FileTotals {
    FileTotals { covered: count_true(flags) as usize, total: flags.len() as usize }
}

pub open spec fn put_flags(t: Totals, p: Seq<char>, flags: Seq<bool>) -> Totals {
    if flags.len() > 0 {
        t.insert(p, totals_of_flags(flags))
    } else {
        t
    }
}

/// Reading one file of the report.
pub open spec fn istanbul_file_step(st: IstanbulState, name: Seq<char>, cov: IstanbulFileCoverage, root: Seq<char>) -> IstanbulState {
    let p = istanbul_path(name, root);
    let ll = listing(statement_lines(cov, cov.statement_map@.len()), position_order());
    let os = file_outcomes(cov, cov.branch_map@.len());
    let fv = function_views(p, cov);
    (
        st.0 + position_ops(p, ll.0, ll.1) + outcome_ops(p, os) + fv,
        put_flags(st.1, p, ll.1),
        put_flags(st.2, p, os.map_values(|o: OutcomeRecord| o.covered)),
        put_flags(st.3, p, view_flags(fv)),
        put_flags(st.4, p, named_flags(fv)),
    )
}

/// The state after the first `k` files.
pub open spec fn istanbul_upto(files: Seq<(String, IstanbulFileCoverage)>, root: Seq<char>, k: nat) -> IstanbulState
    decreases k,
{
    if k == 0 {
        (seq![], Map::empty(), Map::empty(), Map::empty(), Map::empty())
    } else {
        istanbul_file_step(istanbul_upto(files, root, (k - 1) as nat), files[k - 1].0@, files[k - 1].1, root)
    }
}

/// The metrics of a state with their totals, in metric order.
pub open spec fn istanbul_totals(st: IstanbulState) -> Seq<(MetricKind, Totals)> {
    seq![
        (MetricKind::Line, st.1),
        (MetricKind::Branch, st.2),
        (MetricKind::Function, st.3),
        (MetricKind::NamedFunction, st.4),
    ]
}

/// Marks a position in the sorted table, covered when it was or `covered` is.
fn mark_position(
    keys: &mut Vec<(u32, u32)>,
    vals: &mut Vec<bool>,
    k: (u32, u32),
    covered: bool,
    Ghost(m): Ghost<Map<(u32, u32), bool>>,
)
    requires
        lists_by(old(keys)@, old(vals)@, m, position_order()),
    ensures
        lists_by(final(keys)@, final(vals)@, m.insert(k, (m.contains_key(k) && m[k]) || covered), position_order()),
{
    proof {
        lemma_position_order_total();
    }
    let mut p: usize = 0;
    while p < keys.len() && (keys[p].0 < k.0 || (keys[p].0 == k.0 && keys[p].1 < k.1))
        invariant
            p <= keys@.len(),
            forall|i: int| 0 <= i < p ==> position_order()(#[trigger] keys@[i], k),
        decreases keys@.len() - p,
    {
        p = p + 1;
    }
    if p < keys.len() && keys[p].0 == k.0 && keys[p].1 == k.1 {
        assert(keys@[p as int] == k);
        let v = vals[p] || covered;
        proof {
            lemma_lists_update(keys@, vals@, m, position_order(), p as int, v);
        }
        vals.set(p, v);
    } else {
        proof {
            if p < keys@.len() {
                assert(keys@[p as int] != k);
                assert(position_order()(k, keys@[p as int]));
            }
            lemma_lists_insert(keys@, vals@, m, position_order(), p as int, k, covered);
        }
        keys.insert(p, k);
        vals.insert(p, covered);
    }
}

/// The statement positions of a file, in order, each covered when any statement
/// starting there ran.
fn statement_positions(cov: &IstanbulFileCoverage) -> (r: (Vec<(u32, u32)>, Vec<bool>))
    ensures
        lists_by(r.0@, r.1@, statement_lines(*cov, cov.statement_map@.len()), position_order()),
{
    let mut keys: Vec<(u32, u32)> = Vec::new();
    let mut vals: Vec<bool> = Vec::new();
    let mut k: usize = 0;
    while k < cov.statement_map.len()
        invariant
            k <= cov.statement_map@.len(),
            lists_by(keys@, vals@, statement_lines(*cov, k as nat), position_order()),
        decreases cov.statement_map@.len() - k,
    {
        let e = &cov.statement_map[k];
        let col = match e.1.start.column {
            Some(c) => c,
            None => 0,
        };
        let hits = count_of(&cov.s, &e.0);
        mark_position(&mut keys, &mut vals, (e.1.start.line, col), hits > 0, Ghost(statement_lines(*cov, k as nat)));
        k = k + 1;
    }
    (keys, vals)
}

fn or_opt_exec(a: Option<u32>, b: Option<u32>) -> (r: Option<u32>)
    ensures
        r == or_opt(a, b),
{
    match a {
        Some(x) => Some(x),
        None => b,
    }
}

/// The outcome at one location of a branch.
fn outcome_at(bm: &IstanbulBranchMap, location: &IstanbulOptionalSpan, counts: &Vec<u64>, index: usize) -> (r: Option<
    OutcomeRecord,
>)
    ensures
        r == location_outcome(bm.line, bm.loc, *location, counts@, index as int),
{
    let (ls, lsc, le, lec) = match bm.loc {
        Some(l) => (l.start.line, l.start.column, l.end.line, l.end.column),
        None => (None, None, None, None),
    };
    let fsl = or_opt_exec(or_opt_exec(ls, bm.line), le);
    let fsc = lsc;
    let fel = or_opt_exec(le, fsl);
    let fec = lec;
    let sl = or_opt_exec(location.start.line, fsl);
    let sc = or_opt_exec(location.start.column, fsc);
    let el = or_opt_exec(or_opt_exec(location.end.line, fel), sl);
    let ec = or_opt_exec(or_opt_exec(location.end.column, fec), sc);
    match sl {
        None => None,
        Some(s) => {
            let count = if index < counts.len() {
                counts[index]
            } else {
                0
            };
            Some(
                OutcomeRecord {
                    start_line: s,
                    start_col: match sc {
                        Some(c) => c,
                        None => 0,
                    },
                    end_line: match el {
                        Some(e) => e,
                        None => s,
                    },
                    end_col: match ec {
                        Some(c) => c,
                        None => 0,
                    },
                    covered: count > 0,
                },
            )
        },
    }
}

/// The branch outcomes of a file, branch by branch and location by location.
fn outcomes_of(cov: &IstanbulFileCoverage) -> (r: Vec<OutcomeRecord>)
    ensures
        r@ == file_outcomes(*cov, cov.branch_map@.len()),
{
    let mut out: Vec<OutcomeRecord> = Vec::new();
    let mut k: usize = 0;
    while k < cov.branch_map.len()
        invariant
            k <= cov.branch_map@.len(),
            out@ == file_outcomes(*cov, k as nat),
        decreases cov.branch_map@.len() - k,
    {
        let e = &cov.branch_map[k];
        let counts = counts_of(&cov.b, &e.0);
        let ghost base = out@;
        let mut j: usize = 0;
        while j < e.1.locations.len()
            invariant
                j <= e.1.locations@.len(),
                counts@ == lookup_counts(cov.b@, e.0@),
                out@ == base + branch_outcomes_upto(e.1, counts@, j as nat),
            decreases e.1.locations@.len() - j,
        {
            let ghost before = out@;
            match outcome_at(&e.1, &e.1.locations[j], &counts, j) {
                Some(o) => {
                    out.push(o);
                    assert(out@ =~= before.push(o));
                },
                None => {},
            }
            j = j + 1;
        }
        k = k + 1;
    }
    out
}

/// Appends the line opportunities of statement positions; returns how many are covered.
fn push_position_ops(ops: &mut Vec<CoverageOpportunity>, path: &String, keys: &Vec<(u32, u32)>, flags: &Vec<bool>) -> (r: usize)
    requires
        keys@.len() == flags@.len(),
    ensures
        opportunity_views(final(ops)@) == opportunity_views(old(ops)@) + position_ops(path@, keys@, flags@),
        r == count_true(flags@),
{
    let ghost base = opportunity_views(ops@);
    let mut covered: usize = 0;
    let mut i: usize = 0;
    assert(base + position_ops(path@, keys@.subrange(0, 0), flags@.subrange(0, 0)) =~= base);
    while i < keys.len()
        invariant
            i <= keys@.len(),
            keys@.len() == flags@.len(),
            opportunity_views(ops@) == base + position_ops(path@, keys@.subrange(0, i as int), flags@.subrange(0, i as int)),
            covered == count_true(flags@.subrange(0, i as int)),
            covered <= i,
        decreases keys@.len() - i,
    {
        let (line, col) = keys[i];
        let o = make_opportunity(OpportunityKind::Line, path, line, line, Some(col), Some(col), flags[i], None, None);
        let ghost before = opportunity_views(ops@);
        ops.push(o);
        proof {
            assert(opportunity_views(ops@) =~= before.push(crate::model::opportunity_view(o)));
            assert(position_ops(path@, keys@.subrange(0, i + 1), flags@.subrange(0, i + 1)) =~= position_ops(
                path@,
                keys@.subrange(0, i as int),
                flags@.subrange(0, i as int),
            ).push(crate::model::opportunity_view(o)));
            assert(flags@.subrange(0, i + 1).drop_last() =~= flags@.subrange(0, i as int));
        }
        if flags[i] {
            covered = covered + 1;
        }
        i = i + 1;
    }
    assert(keys@.subrange(0, keys@.len() as int) =~= keys@);
    assert(flags@.subrange(0, flags@.len() as int) =~= flags@);
    covered
}

/// Appends the branch opportunities of outcomes; returns how many are covered.
fn push_outcome_ops(ops: &mut Vec<CoverageOpportunity>, path: &String, os: &Vec<OutcomeRecord>) -> (r: usize)
    ensures
        opportunity_views(final(ops)@) == opportunity_views(old(ops)@) + outcome_ops(path@, os@),
        r == count_true(os@.map_values(|o: OutcomeRecord| o.covered)),
{
    let ghost base = opportunity_views(ops@);
    let mut covered: usize = 0;
    let mut i: usize = 0;
    assert(os@.subrange(0, 0) =~= Seq::<OutcomeRecord>::empty());
    assert(base + outcome_ops(path@, os@.subrange(0, 0)) =~= base);
    while i < os.len()
        invariant
            i <= os@.len(),
            opportunity_views(ops@) == base + outcome_ops(path@, os@.subrange(0, i as int)),
            covered == count_true(os@.subrange(0, i as int).map_values(|o: OutcomeRecord| o.covered)),
            covered <= i,
        decreases os@.len() - i,
    {
        let r = os[i];
        let o = make_opportunity(
            OpportunityKind::BranchOutcome,
            path,
            r.start_line,
            r.end_line,
            Some(r.start_col),
            Some(r.end_col),
            r.covered,
            None,
            None,
        );
        let ghost before = opportunity_views(ops@);
        ops.push(o);
        proof {
            assert(opportunity_views(ops@) =~= before.push(crate::model::opportunity_view(o)));
            assert(os@.subrange(0, i + 1) =~= os@.subrange(0, i as int).push(r));
            assert(outcome_ops(path@, os@.subrange(0, i + 1)) =~= outcome_ops(path@, os@.subrange(0, i as int)).push(
                crate::model::opportunity_view(o),
            ));
            assert(os@.subrange(0, i + 1).map_values(|o: OutcomeRecord| o.covered).drop_last() =~= os@.subrange(
                0,
                i as int,
            ).map_values(|o: OutcomeRecord| o.covered));
        }
        if r.covered {
            covered = covered + 1;
        }
        i = i + 1;
    }
    assert(os@.subrange(0, os@.len() as int) =~= os@);
    covered
}

/// Appends the function opportunities of a file; returns how many are covered,
/// and how many are named and how many of those are covered.
fn push_istanbul_functions(ops: &mut Vec<CoverageOpportunity>, path: &String, cov: &IstanbulFileCoverage) -> (r: (
    usize,
    usize,
    usize,
))
    ensures
        opportunity_views(final(ops)@) == opportunity_views(old(ops)@) + function_views(path@, *cov),
        r.0 == count_true(view_flags(function_views(path@, *cov))),
        r.1 == count_true(named_flags(function_views(path@, *cov))),
        r.2 == named_flags(function_views(path@, *cov)).len(),
{
    let ghost base = opportunity_views(ops@);
    let ghost fv = function_views(path@, *cov);
    let mut covered: usize = 0;
    let mut named_covered: usize = 0;
    let mut named_total: usize = 0;
    let mut i: usize = 0;
    assert(base + fv.subrange(0, 0) =~= base);
    while i < cov.fn_map.len()
        invariant
            i <= cov.fn_map@.len(),
            fv == function_views(path@, *cov),
            opportunity_views(ops@) == base + fv.subrange(0, i as int),
            covered == count_true(view_flags(fv.subrange(0, i as int))),
            named_covered == count_true(named_flags(fv.subrange(0, i as int))),
            named_total == named_flags(fv.subrange(0, i as int)).len(),
            covered <= i,
            named_covered <= named_total <= i,
        decreases cov.fn_map@.len() - i,
    {
        let e = &cov.fn_map[i];
        let is_named = match &e.1.name {
            Some(n) => is_istanbul_function_named(Some(n.as_str())),
            None => is_istanbul_function_named(None),
        };
        let hits = count_of(&cov.f, &e.0);
        let identity = if is_named {
            Some(e.0.clone())
        } else {
            None
        };
        let o = make_opportunity(
            OpportunityKind::Function,
            path,
            e.1.loc.start.line,
            e.1.loc.end.line,
            Some(
                match e.1.loc.start.column {
                    Some(c) => c,
                    None => 0,
                },
            ),
            Some(
                match e.1.loc.end.column {
                    Some(c) => c,
                    None => 0,
                },
            ),
            hits > 0,
            Some(is_named),
            identity,
        );
        let ghost before = opportunity_views(ops@);
        ops.push(o);
        proof {
            assert(crate::model::opportunity_view(o) == fv[i as int]);
            assert(opportunity_views(ops@) =~= before.push(fv[i as int]));
            assert(fv.subrange(0, i + 1) =~= fv.subrange(0, i as int).push(fv[i as int]));
            assert(view_flags(fv.subrange(0, i + 1)).drop_last() =~= view_flags(fv.subrange(0, i as int)));
            assert(fv.subrange(0, i + 1).drop_last() =~= fv.subrange(0, i as int));
            if is_named {
                assert(named_flags(fv.subrange(0, i + 1)).drop_last() =~= named_flags(fv.subrange(0, i as int)));
            }
        }
        if hits > 0 {
            covered = covered + 1;
        }
        if is_named {
            named_total = named_total + 1;
            if hits > 0 {
                named_covered = named_covered + 1;
            }
        }
        i = i + 1;
    }
    assert(fv.subrange(0, fv.len() as int) =~= fv);
    (covered, named_covered, named_total)
}

/// The coverage report of an Istanbul report, with file paths made relative to
/// `repo_root`. Per file, in order: its statement positions (line and column, each
/// covered when any statement starting there ran), its branch outcomes, and its
/// functions; totals per file are kept for each metric that has any.
pub fn parse_istanbul_report(files: &Vec<(String, IstanbulFileCoverage)>, repo_root: &str) -> (r: CoverageReport)
    ensures
        ({
            let st = istanbul_upto(files@, repo_root@, files@.len());
            &&& opportunity_views(r.opportunities@) == st.0
            &&& lists_report_totals(r.totals_by_file@, istanbul_totals(st))
        }),
{
    let mut ops: Vec<CoverageOpportunity> = Vec::new();
    let mut line = TotalsTable::new();
    let mut branch = TotalsTable::new();
    let mut function = TotalsTable::new();
    let mut named = TotalsTable::new();
    assert(opportunity_views(ops@) =~= Seq::<OpportunityView>::empty());
    let mut k: usize = 0;
    while k < files.len()
        invariant
            k <= files@.len(),
            ({
                let st = istanbul_upto(files@, repo_root@, k as nat);
                &&& opportunity_views(ops@) == st.0
                &&& lists_table(line, st.1)
                &&& lists_table(branch, st.2)
                &&& lists_table(function, st.3)
                &&& lists_table(named, st.4)
            }),
        decreases files@.len() - k,
    {
        let ghost st = istanbul_upto(files@, repo_root@, k as nat);
        let (name, cov) = (&files[k].0, &files[k].1);
        let path = normalize_istanbul_path(name.as_str(), repo_root);
        let pc = chars_of(path.as_str());
        let (pk, pv) = statement_positions(cov);
        proof {
            lemma_position_order_total();
            lemma_listing(pk@, pv@, statement_lines(*cov, cov.statement_map@.len()), position_order());
        }
        let line_covered = push_position_ops(&mut ops, &path, &pk, &pv);
        if pk.len() > 0 {
            line.put(pc.as_slice(), FileTotals { covered: line_covered, total: pk.len() }, Ghost(st.1));
        }
        let os = outcomes_of(cov);
        let branch_covered = push_outcome_ops(&mut ops, &path, &os);
        assert(os@.map_values(|o: OutcomeRecord| o.covered).len() == os@.len());
        if os.len() > 0 {
            branch.put(pc.as_slice(), FileTotals { covered: branch_covered, total: os.len() }, Ghost(st.2));
        }
        let (fc, nc, nt) = push_istanbul_functions(&mut ops, &path, cov);
        assert(view_flags(function_views(path@, *cov)).len() == cov.fn_map@.len());
        if cov.fn_map.len() > 0 {
            function.put(pc.as_slice(), FileTotals { covered: fc, total: cov.fn_map.len() }, Ghost(st.3));
        }
        if nt > 0 {
            named.put(pc.as_slice(), FileTotals { covered: nc, total: nt }, Ghost(st.4));
        }
        k = k + 1;
    }
    let ghost st = istanbul_upto(files@, repo_root@, files@.len());
    let tb: Vec<(MetricKind, FileTotalsList)> = Vec::new();
    let ghost ms0 = Seq::<(MetricKind, Totals)>::empty();
    let ghost ms1 = ms0.push((MetricKind::Line, st.1));
    let ghost ms2 = ms1.push((MetricKind::Branch, st.2));
    let ghost ms3 = ms2.push((MetricKind::Function, st.3));
    assert(lists_report_totals(tb@, ms0));
    let tb = push_metric_totals(tb, MetricKind::Line, &line, Ghost(st.1), Ghost(ms0));
    let tb = push_metric_totals(tb, MetricKind::Branch, &branch, Ghost(st.2), Ghost(ms1));
    let tb = push_metric_totals(tb, MetricKind::Function, &function, Ghost(st.3), Ghost(ms2));
    let tb = push_metric_totals(tb, MetricKind::NamedFunction, &named, Ghost(st.4), Ghost(ms3));
    assert(istanbul_totals(st) =~= ms3.push((MetricKind::NamedFunction, st.4)));
    CoverageReport { opportunities: ops, totals_by_file: tb }
}


proof fn lemma_statement_lines_finite(cov: IstanbulFileCoverage, k: nat)
    ensures
        statement_lines(cov, k).dom().finite(),
    decreases k,
{
    if k > 0 {
        lemma_statement_lines_finite(cov, (k - 1) as nat);
    }
}

/// Reading a file whose path no earlier file had keeps each metric's totals
/// counting that metric's opportunities.
proof fn lemma_istanbul_step_counts(st: IstanbulState, name: Seq<char>, cov: IstanbulFileCoverage, root: Seq<char>)
    requires
        totals_count_ops(st.1, st.0, OpportunityKind::Line),
        totals_count_ops(st.2, st.0, OpportunityKind::BranchOutcome),
        totals_count_ops(st.3, st.0, OpportunityKind::Function),
        forall|k: OpportunityKind| #[trigger] count_ops(st.0, k, istanbul_path(name, root)) == 0,
        istanbul_file_step(st, name, cov, root).0.len() <= usize::MAX,
    ensures
        ({
            let nx = istanbul_file_step(st, name, cov, root);
            &&& totals_count_ops(nx.1, nx.0, OpportunityKind::Line)
            &&& totals_count_ops(nx.2, nx.0, OpportunityKind::BranchOutcome)
            &&& totals_count_ops(nx.3, nx.0, OpportunityKind::Function)
            &&& forall|k: OpportunityKind, q: Seq<char>|
                q != istanbul_path(name, root) ==> #[trigger] count_ops(nx.0, k, q) == count_ops(st.0, k, q)
        }),
{
    let p = istanbul_path(name, root);
    let m = statement_lines(cov, cov.statement_map@.len());
    lemma_statement_lines_finite(cov, cov.statement_map@.len());
    lemma_position_order_total();
    lemma_listing_exists(m, position_order());
    let ll = listing(m, position_order());
    let os = file_outcomes(cov, cov.branch_map@.len());
    let fv = function_views(p, cov);
    let lo = position_ops(p, ll.0, ll.1);
    let bo = outcome_ops(p, os);
    let bf = os.map_values(|o: OutcomeRecord| o.covered);
    let ff = view_flags(fv);
    assert(is_block(lo, OpportunityKind::Line, p, ll.1));
    assert(is_block(bo, OpportunityKind::BranchOutcome, p, bf));
    assert(is_block(fv, OpportunityKind::Function, p, ff));
    let extra = lo + bo + fv;
    let nx = istanbul_file_step(st, name, cov, root);
    assert(nx.0 =~= st.0 + extra);
    assert forall|k: OpportunityKind, q: Seq<char>| #![trigger count_ops(extra, k, q)] #![trigger count_covered_ops(extra, k, q)]
        count_ops(extra, k, q) == (if k == OpportunityKind::Line && q == p {
            ll.1.len()
        } else if k == OpportunityKind::BranchOutcome && q == p {
            bf.len()
        } else if k == OpportunityKind::Function && q == p {
            ff.len()
        } else {
            0
        }) && count_covered_ops(extra, k, q) == (if k == OpportunityKind::Line && q == p {
            count_true(ll.1)
        } else if k == OpportunityKind::BranchOutcome && q == p {
            count_true(bf)
        } else if k == OpportunityKind::Function && q == p {
            count_true(ff)
        } else {
            0
        }) by {
        lemma_count_ops_add(lo, bo, k, q);
        lemma_count_ops_add(lo + bo, fv, k, q);
        lemma_block_counts(lo, OpportunityKind::Line, p, ll.1, k, q);
        lemma_block_counts(bo, OpportunityKind::BranchOutcome, p, bf, k, q);
        lemma_block_counts(fv, OpportunityKind::Function, p, ff, k, q);
    }
    assert forall|k: OpportunityKind, q: Seq<char>| q != p implies #[trigger] count_ops(nx.0, k, q) == count_ops(st.0, k, q) by {
        lemma_count_ops_add(st.0, extra, k, q);
        assert(count_ops(extra, k, q) == 0);
    }
    assert(count_ops(st.0, OpportunityKind::Line, p) == 0);
    assert(count_ops(st.0, OpportunityKind::BranchOutcome, p) == 0);
    assert(count_ops(st.0, OpportunityKind::Function, p) == 0);
    assert(count_ops(extra, OpportunityKind::Line, p) == ll.1.len());
    assert(count_ops(extra, OpportunityKind::BranchOutcome, p) == bf.len());
    assert(count_ops(extra, OpportunityKind::Function, p) == ff.len());
    assert(count_covered_ops(extra, OpportunityKind::Line, p) == count_true(ll.1));
    assert(count_covered_ops(extra, OpportunityKind::BranchOutcome, p) == count_true(bf));
    assert(count_covered_ops(extra, OpportunityKind::Function, p) == count_true(ff));
    assert forall|q: Seq<char>| q != p implies #[trigger] count_ops(extra, OpportunityKind::Line, q) == 0 by {
        assert(count_ops(extra, OpportunityKind::Line, q) == 0);
    }
    assert forall|q: Seq<char>| q != p implies #[trigger] count_ops(extra, OpportunityKind::BranchOutcome, q) == 0 by {
        assert(count_ops(extra, OpportunityKind::BranchOutcome, q) == 0);
    }
    assert forall|q: Seq<char>| q != p implies #[trigger] count_ops(extra, OpportunityKind::Function, q) == 0 by {
        assert(count_ops(extra, OpportunityKind::Function, q) == 0);
    }
    lemma_put_counts(st.1, st.0, extra, OpportunityKind::Line, p, ll.1);
    lemma_put_counts(st.2, st.0, extra, OpportunityKind::BranchOutcome, p, bf);
    lemma_put_counts(st.3, st.0, extra, OpportunityKind::Function, p, ff);
}

/// After the first `k` files, each metric's totals count its opportunities, and a
/// path that none of them has has no opportunity.
proof fn lemma_istanbul_counts_upto(files: Seq<(String, IstanbulFileCoverage)>, root: Seq<char>, k: nat)
    requires
        k <= files.len(),
        forall|i: int, j: int|
            0 <= i < j < files.len() ==> istanbul_path(#[trigger] files[i].0@, root) != istanbul_path(
                #[trigger] files[j].0@,
                root,
            ),
        istanbul_upto(files, root, k).0.len() <= usize::MAX,
    ensures
        ({
            let st = istanbul_upto(files, root, k);
            &&& totals_count_ops(st.1, st.0, OpportunityKind::Line)
            &&& totals_count_ops(st.2, st.0, OpportunityKind::BranchOutcome)
            &&& totals_count_ops(st.3, st.0, OpportunityKind::Function)
            &&& forall|o: OpportunityKind, q: Seq<char>|
                (forall|i: int| 0 <= i < k ==> istanbul_path(#[trigger] files[i].0@, root) != q) ==> #[trigger] count_ops(
                    st.0,
                    o,
                    q,
                ) == 0
        }),
    decreases k,
{
    let st = istanbul_upto(files, root, k);
    if k == 0 {
        assert forall|o: OpportunityKind, q: Seq<char>| #[trigger] count_ops(st.0, o, q) == 0 by {}
    } else {
        let prev = istanbul_upto(files, root, (k - 1) as nat);
        lemma_istanbul_counts_upto(files, root, (k - 1) as nat);
        let p = istanbul_path(files[k - 1].0@, root);
        assert forall|o: OpportunityKind| #[trigger] count_ops(prev.0, o, p) == 0 by {
            assert forall|i: int| 0 <= i < k - 1 implies istanbul_path(#[trigger] files[i].0@, root) != p by {}
        }
        lemma_istanbul_step_counts(prev, files[k - 1].0@, files[k - 1].1, root);
        assert forall|o: OpportunityKind, q: Seq<char>|
            (forall|i: int| 0 <= i < k ==> istanbul_path(#[trigger] files[i].0@, root) != q) implies #[trigger] count_ops(
                st.0,
                o,
                q,
            ) == 0 by {
            assert(istanbul_path(files[k - 1].0@, root) != q);
            assert(count_ops(st.0, o, q) == count_ops(prev.0, o, q));
            assert forall|i: int| 0 <= i < k - 1 implies istanbul_path(#[trigger] files[i].0@, root) != q by {}
        }
    }
}

/// When no two files of the report name the same path, each file's line, branch and
/// function totals are non-empty, count no more covered than there are, and equal
/// the number of that file's opportunities of that kind and of those covered; a
/// file without totals for a metric has no opportunity of its kind.
pub proof fn lemma_istanbul_totals_count(files: Seq<(String, IstanbulFileCoverage)>, root: Seq<char>)
    requires
        forall|i: int, j: int|
            0 <= i < j < files.len() ==> istanbul_path(#[trigger] files[i].0@, root) != istanbul_path(
                #[trigger] files[j].0@,
                root,
            ),
        istanbul_upto(files, root, files.len()).0.len() <= usize::MAX,
    ensures
        ({
            let st = istanbul_upto(files, root, files.len());
            &&& totals_count_ops(st.1, st.0, OpportunityKind::Line)
            &&& totals_count_ops(st.2, st.0, OpportunityKind::BranchOutcome)
            &&& totals_count_ops(st.3, st.0, OpportunityKind::Function)
        }),
{
    lemma_istanbul_counts_upto(files, root, files.len());
}


/// The outcome at the `k`-th location of a branch is covered exactly when the
/// branch's `k`-th count is positive (an absent count is zero).
pub proof fn lemma_location_outcome_count(
    line: Option<u32>,
    loc: Option<IstanbulOptionalSpan>,
    location: IstanbulOptionalSpan,
    counts: Seq<u64>,
    k: int,
)
    requires
        0 <= k,
    ensures
        location_outcome(line, loc, location, counts, k) matches Some(o) ==> o.covered == (k < counts.len()
            && counts[k] > 0),
        location.start.line matches Some(l) ==> (location_outcome(line, loc, location, counts, k) matches Some(o)
            && o.start_line == l),
{
}

/// When every location of a branch gives its start line, the branch has one
/// outcome per location, in order: the `k`-th lies where the `k`-th location says
/// (each line and column it gives) and is covered exactly when the `k`-th count is
/// positive.
pub proof fn lemma_branch_outcomes_follow_locations(bm: IstanbulBranchMap, counts: Seq<u64>)
    requires
        forall|k: int| 0 <= k < bm.locations@.len() ==> (#[trigger] bm.locations@[k]).start.line is Some,
    ensures
        ({
            let os = branch_outcomes_upto(bm, counts, bm.locations@.len());
            &&& os.len() == bm.locations@.len()
            &&& forall|k: int|
                0 <= k < os.len() ==> {
                    let at = bm.locations@[k];
                    &&& (#[trigger] os[k]).covered == (k < counts.len() && counts[k] > 0)
                    &&& os[k].start_line == at.start.line->Some_0
                    &&& (at.start.column matches Some(c) ==> os[k].start_col == c)
                    &&& (at.end.line matches Some(e) ==> os[k].end_line == e)
                    &&& (at.end.column matches Some(c) ==> os[k].end_col == c)
                }
        }),
{
    lemma_branch_outcomes_upto_follow(bm, counts, bm.locations@.len());
}

proof fn lemma_branch_outcomes_upto_follow(bm: IstanbulBranchMap, counts: Seq<u64>, n: nat)
    requires
        n <= bm.locations@.len(),
        forall|k: int| 0 <= k < bm.locations@.len() ==> (#[trigger] bm.locations@[k]).start.line is Some,
    ensures
        ({
            let os = branch_outcomes_upto(bm, counts, n);
            &&& os.len() == n
            &&& forall|k: int|
                0 <= k < os.len() ==> {
                    let at = bm.locations@[k];
                    &&& (#[trigger] os[k]).covered == (k < counts.len() && counts[k] > 0)
                    &&& os[k].start_line == at.start.line->Some_0
                    &&& (at.start.column matches Some(c) ==> os[k].start_col == c)
                    &&& (at.end.line matches Some(e) ==> os[k].end_line == e)
                    &&& (at.end.column matches Some(c) ==> os[k].end_col == c)
                }
        }),
    decreases n,
{
    if n > 0 {
        lemma_branch_outcomes_upto_follow(bm, counts, (n - 1) as nat);
        let at = bm.locations@[n - 1];
        assert(at.start.line is Some);
        let prev = branch_outcomes_upto(bm, counts, (n - 1) as nat);
        let os = branch_outcomes_upto(bm, counts, n);
        assert forall|k: int| 0 <= k < os.len() - 1 implies #[trigger] os[k] == prev[k] by {}
    }
}

} // verus!
