//! Metric computation: coverage of the opportunities that a diff touches, and
//! overall coverage of a report.
use vstd::prelude::*;

use crate::error::CovgateError;
use crate::model::{
    metric_name, opportunity_kind_of, overlaps, span_key_less, span_key_lt, span_key_of, ChangedFile, ComputedMetric, CoverageOpportunity,
    CoverageReport, FileTotals, FileTotalsList, MetricKind, OpportunityKind, SourceSpan,
};
use crate::sorted::{
    copy_chars, key_views, lemma_key_views_sorted, lemma_lists_insert, lemma_lists_update,
    lemma_path_order_total, lists_by, path_order, strict_total,
    lists_map, locate,
};
use crate::text::{
    chars_equal, chars_of, lemma_path_order, lemma_str_order, path_less, path_lt, push_str,
    str_less, str_lt, string_from_chars,
};

verus! {

/// The per-file totals recorded for metric `m`: the first entry for `m`, if any.
pub open spec fn totals_lookup(tb: Seq<(MetricKind, FileTotalsList)>, m: MetricKind) -> Option<
    Seq<(String, FileTotals)>,
>
    decreases tb.len(),
{
    if tb.len() == 0 {
        None
    } else if tb[0].0 == m {
        Some(tb[0].1@)
    } else {
        totals_lookup(tb.drop_first(), m)
    }
}

/// Some file has a nonzero total.
pub open spec fn has_nonzero_total(files: Seq<(String, FileTotals)>) -> bool {
    exists|i: int| 0 <= i < files.len() && #[trigger] files[i].1.total > 0
}

/// The report carries usable totals for metric `m`.
pub open spec fn metric_available(report: CoverageReport, m: MetricKind) -> bool {
    totals_lookup(report.totals_by_file@, m) matches Some(files) && has_nonzero_total(files)
}

/// The message of the error for a metric the report does not carry.
pub open spec fn unavailable_message(m: MetricKind) -> Seq<char> {
    "requested metric "@ + metric_name(m) + " is not available in the report"@
}

/// Some entry of `paths` is `p`.
pub open spec fn path_included(paths: Seq<String>, p: Seq<char>) -> bool {
    exists|i: int| 0 <= i < paths.len() && #[trigger] paths[i]@ == p
}

/// Some changed range of the file of `s` overlaps the lines of `s`.
pub open spec fn span_changed(diff: Seq<ChangedFile>, s: SourceSpan) -> bool {
    exists|i: int, j: int|
        0 <= i < diff.len() && diff[i].path@ == s.path@ && 0 <= j < diff[i].changed_lines@.len()
            && overlaps(
            s,
            #[trigger] diff[i].changed_lines@[j].start,
            diff[i].changed_lines@[j].end,
        )
}

/// The opportunity is of kind `kind`, lies in an included file and overlaps a changed line.
pub open spec fn counts_toward(
    o: CoverageOpportunity,
    kind: OpportunityKind,
    paths: Seq<String>,
    diff: Seq<ChangedFile>,
) -> bool {
    o.kind == kind && path_included(paths, o.span.path@) && span_changed(diff, o.span)
}

/// The opportunities of `ops` that count toward a changed metric, in order.
pub open spec fn selected(
    ops: Seq<CoverageOpportunity>,
    kind: OpportunityKind,
    paths: Seq<String>,
    diff: Seq<ChangedFile>,
) -> Seq<CoverageOpportunity>
    decreases ops.len(),
{
    if ops.len() == 0 {
        seq![]
    } else {
        let prev = selected(ops.drop_last(), kind, paths, diff);
        if counts_toward(ops.last(), kind, paths, diff) {
            prev.push(ops.last())
        } else {
            prev
        }
    }
}

/// How many opportunities of `ops` are covered.
pub open spec fn covered_count(ops: Seq<CoverageOpportunity>) -> nat
    decreases ops.len(),
{
    if ops.len() == 0 {
        0
    } else {
        covered_count(ops.drop_last()) + if ops.last().covered {
            1nat
        } else {
            0nat
        }
    }
}

/// The uncovered opportunities of `ops`, in order.
pub open spec fn uncovered_of(ops: Seq<CoverageOpportunity>) -> Seq<CoverageOpportunity>
    decreases ops.len(),
{
    if ops.len() == 0 {
        seq![]
    } else if ops.last().covered {
        uncovered_of(ops.drop_last())
    } else {
        uncovered_of(ops.drop_last()).push(ops.last())
    }
}

/// Covered and total counts per file of `ops`.
pub open spec fn per_file_totals(ops: Seq<CoverageOpportunity>) -> Map<Seq<char>, FileTotals>
    decreases ops.len(),
{
    if ops.len() == 0 {
        Map::empty()
    } else {
        let m = per_file_totals(ops.drop_last());
        let o = ops.last();
        let p = o.span.path@;
        let prev = if m.contains_key(p) {
            m[p]
        } else {
            FileTotals { covered: 0, total: 0 }
        };
        m.insert(
            p,
            FileTotals {
                covered: (prev.covered + if o.covered {
                    1nat
                } else {
                    0nat
                }) as usize,
                total: (prev.total + 1) as usize,
            },
        )
    }
}

/// The paths of a totals list.
pub open spec fn totals_keys(t: Seq<(String, FileTotals)>) -> Seq<Seq<char>> {
    t.map_values(|e: (String, FileTotals)| e.0@)
}

/// The totals of a totals list.
pub open spec fn totals_vals(t: Seq<(String, FileTotals)>) -> Seq<FileTotals> {
    t.map_values(|e: (String, FileTotals)| e.1)
}

/// The totals list names each file of `m` once, in path order, with its totals.
pub open spec fn lists_totals(t: Seq<(String, FileTotals)>, m: Map<Seq<char>, FileTotals>) -> bool {
    lists_map(totals_keys(t), totals_vals(t), m)
}

/// What `compute_changed_metric` gives for a metric other than named functions.
pub open spec fn is_changed_metric(
    report: CoverageReport,
    diff: Seq<ChangedFile>,
    paths: Seq<String>,
    metric: MetricKind,
    r: ComputedMetric,
) -> bool {
    let sel = selected(report.opportunities@, opportunity_kind_of(metric), paths, diff);
    &&& r.metric == metric
    &&& r.total == sel.len()
    &&& r.covered == covered_count(sel)
    &&& r.uncovered_changed_opportunities@ == uncovered_of(sel)
    &&& lists_totals(r.changed_totals_by_file@, per_file_totals(sel))
    &&& Some(r.totals_by_file@) == totals_lookup(report.totals_by_file@, metric)
}

proof fn lemma_totals_lookup_index(tb: Seq<(MetricKind, FileTotalsList)>, m: MetricKind, i: int)
    requires
        0 <= i < tb.len(),
        tb[i].0 == m,
        forall|j: int| 0 <= j < i ==> tb[j].0 != m,
    ensures
        totals_lookup(tb, m) == Some(tb[i].1@),
    decreases i,
{
    if i > 0 {
        lemma_totals_lookup_index(tb.drop_first(), m, i - 1);
    }
}

proof fn lemma_totals_lookup_none(tb: Seq<(MetricKind, FileTotalsList)>, m: MetricKind)
    requires
        forall|j: int| 0 <= j < tb.len() ==> tb[j].0 != m,
    ensures
        totals_lookup(tb, m) is None,
    decreases tb.len(),
{
    if tb.len() > 0 {
        lemma_totals_lookup_none(tb.drop_first(), m);
    }
}

/// Whether the report carries usable totals for metric `m`.
pub fn is_metric_available(report: &CoverageReport, m: MetricKind) -> (r: bool)
    ensures
        r == metric_available(*report, m),
{
    find_available_totals(report, m).is_some()
}

/// The index of the totals for `m` when they are available.
fn find_available_totals(report: &CoverageReport, m: MetricKind) -> (r: Option<usize>)
    ensures
        match r {
            Some(i) => i < report.totals_by_file@.len() && totals_lookup(
                report.totals_by_file@,
                m,
            ) == Some(report.totals_by_file@[i as int].1@) && metric_available(*report, m),
            None => !metric_available(*report, m),
        },
{
    let tb = &report.totals_by_file;
    let mut i: usize = 0;
    while i < tb.len()
        invariant
            i <= tb@.len(),
            tb@ == report.totals_by_file@,
            forall|j: int| 0 <= j < i ==> tb@[j].0 != m,
        decreases tb@.len() - i,
    {
        if tb[i].0 == m {
            proof {
                lemma_totals_lookup_index(tb@, m, i as int);
            }
            let files = &tb[i].1;
            let mut k: usize = 0;
            while k < files.len()
                invariant
                    k <= files@.len(),
                    i < tb@.len(),
                    tb@ == report.totals_by_file@,
                    files@ == tb@[i as int].1@,
                    totals_lookup(tb@, m) == Some(tb@[i as int].1@),
                    forall|j: int| 0 <= j < k ==> files@[j].1.total == 0,
                decreases files@.len() - k,
            {
                if files[k].1.total > 0 {
                    assert(files@ == tb@[i as int].1@);
                    assert(files@[k as int].1.total > 0);
                    return Some(i);
                }
                k = k + 1;
            }
            proof {
                assert(files@ == tb@[i as int].1@);
                assert(!has_nonzero_total(files@)) by {
                    if has_nonzero_total(files@) {
                        let j = choose|j: int| 0 <= j < files@.len() && #[trigger] files@[j].1.total > 0;
                        assert(files@[j].1.total == 0);
                    }
                }
            }
            return None;
        }
        i = i + 1;
    }
    proof {
        lemma_totals_lookup_none(tb@, m);
    }
    None
}

/// The error for a metric the report does not carry.
pub fn unavailable_error(m: MetricKind) -> (e: CovgateError)
    ensures
        e.message@ == unavailable_message(m),
{
    let mut msg = String::new();
    push_str(&mut msg, "requested metric ");
    push_str(&mut msg, m.as_str());
    push_str(&mut msg, " is not available in the report");
    assert(msg@ =~= unavailable_message(m));
    CovgateError { message: msg }
}

/// A copy of a totals list.
pub fn copy_totals(t: &FileTotalsList) -> (r: FileTotalsList)
    ensures
        r@ == t@,
{
    let mut r: FileTotalsList = Vec::new();
    let mut i: usize = 0;
    while i < t.len()
        invariant
            i <= t@.len(),
            r@ == t@.subrange(0, i as int),
        decreases t@.len() - i,
    {
        r.push((t[i].0.clone(), t[i].1));
        i = i + 1;
        assert(r@ =~= t@.subrange(0, i as int));
    }
    assert(r@ =~= t@);
    r
}

/// Whether `paths` holds `p`.
pub fn includes_path(paths: &[String], p: &String) -> (r: bool)
    ensures
        r == path_included(paths@, p@),
{
    let mut i: usize = 0;
    while i < paths.len()
        invariant
            i <= paths@.len(),
            forall|j: int| 0 <= j < i ==> paths@[j]@ != p@,
        decreases paths@.len() - i,
    {
        if paths[i] == *p {
            return true;
        }
        i = i + 1;
    }
    false
}

/// Whether some changed range of the span's file overlaps the span.
pub fn is_span_changed(diff: &[ChangedFile], s: &SourceSpan) -> (r: bool)
    ensures
        r == span_changed(diff@, *s),
{
    let mut i: usize = 0;
    while i < diff.len()
        invariant
            i <= diff@.len(),
            forall|a: int, b: int|
                0 <= a < i && diff@[a].path@ == s.path@ && 0 <= b < diff@[a].changed_lines@.len()
                    ==> !overlaps(
                    *s,
                    #[trigger] diff@[a].changed_lines@[b].start,
                    diff@[a].changed_lines@[b].end,
                ),
        decreases diff@.len() - i,
    {
        if diff[i].path == s.path {
            let ranges = &diff[i].changed_lines;
            assert(ranges@ == diff@[i as int].changed_lines@);
            let mut j: usize = 0;
            while j < ranges.len()
                invariant
                    j <= ranges@.len(),
                    i < diff@.len(),
                    diff@[i as int].path@ == s.path@,
                    ranges@ == diff@[i as int].changed_lines@,
                    forall|b: int|
                        0 <= b < j ==> !overlaps(
                            *s,
                            #[trigger] ranges@[b].start,
                            ranges@[b].end,
                        ),
                decreases ranges@.len() - j,
            {
                if s.overlaps_line_range(ranges[j].start, ranges[j].end) {
                    assert(overlaps(
                        *s,
                        diff@[i as int].changed_lines@[j as int].start,
                        diff@[i as int].changed_lines@[j as int].end,
                    ));
                    return true;
                }
                j = j + 1;
            }
        }
        i = i + 1;
    }
    false
}

/// Adds one opportunity to the per-file table.
fn bump_file(
    keys: &mut Vec<Vec<char>>,
    vals: &mut Vec<FileTotals>,
    k: &[char],
    covered: bool,
    Ghost(m): Ghost<Map<Seq<char>, FileTotals>>,
    Ghost(bound): Ghost<nat>,
)
    requires
        lists_map(key_views(old(keys)@), old(vals)@, m),
        forall|j: int| 0 <= j < old(vals)@.len() ==> #[trigger] old(vals)@[j].total <= bound,
        forall|j: int| 0 <= j < old(vals)@.len() ==> #[trigger] old(vals)@[j].covered <= old(vals)@[j].total,
        bound < usize::MAX,
    ensures
        ({
            let prev = if m.contains_key(k@) {
                m[k@]
            } else {
                FileTotals { covered: 0, total: 0 }
            };
            lists_map(
                key_views(final(keys)@),
                final(vals)@,
                m.insert(
                    k@,
                    FileTotals {
                        covered: (prev.covered + if covered {
                            1nat
                        } else {
                            0nat
                        }) as usize,
                        total: (prev.total + 1) as usize,
                    },
                ),
            )
        }),
        forall|j: int| 0 <= j < final(vals)@.len() ==> #[trigger] final(vals)@[j].total <= bound + 1,
        forall|j: int| 0 <= j < final(vals)@.len() ==> #[trigger] final(vals)@[j].covered <= final(vals)@[j].total,
{
    let ghost ks = key_views(keys@);
    proof {
        lemma_key_views_sorted(keys@);
    }
    let (p, found) = locate(keys, k);
    if found {
        assert(ks[p as int] == k@);
        let old_t = vals[p];
        let t = FileTotals {
            covered: if covered { old_t.covered + 1 } else { old_t.covered },
            total: old_t.total + 1,
        };
        proof {
            lemma_path_order_total();
            lemma_lists_update(ks, vals@, m, path_order(), p as int, t);
        }
        vals.set(p, t);
    } else {
        let t = FileTotals { covered: if covered { 1 } else { 0 }, total: 1 };
        proof {
            lemma_path_order_total();
            lemma_lists_insert(ks, vals@, m, path_order(), p as int, k@, t);
        }
        let nk = copy_chars(k);
        keys.insert(p, nk);
        vals.insert(p, t);
        assert(key_views(keys@) =~= ks.insert(p as int, k@));
    }
}

/// Turns a per-file table into a totals list.
fn table_to_totals(keys: &Vec<Vec<char>>, vals: &Vec<FileTotals>, Ghost(m): Ghost<Map<Seq<char>, FileTotals>>) -> (r: FileTotalsList)
    requires
        lists_map(key_views(keys@), vals@, m),
    ensures
        lists_totals(r@, m),
{
    let ghost ks = key_views(keys@);
    let mut r: FileTotalsList = Vec::new();
    let mut i: usize = 0;
    while i < keys.len()
        invariant
            ks == key_views(keys@),
            lists_map(ks, vals@, m),
            i <= keys@.len(),
            r@.len() == i,
            forall|j: int| #![trigger r@[j]] 0 <= j < i ==> r@[j].0@ == ks[j] && r@[j].1 == vals@[j],
        decreases keys@.len() - i,
    {
        assert(ks[i as int] == keys@[i as int]@);
        let s = string_from_chars(keys[i].as_slice());
        r.push((s, vals[i]));
        i = i + 1;
    }
    assert(totals_keys(r@) =~= ks);
    assert(totals_vals(r@) =~= vals@);
    r
}

/// Coverage of the changed opportunities of one metric within the included paths.
///
/// Fails when the report has no nonzero totals for the metric.
pub fn compute_changed_metric(
    report: &CoverageReport,
    diff: &[ChangedFile],
    included_paths: &[String],
    metric: MetricKind,
) -> (r: Result<ComputedMetric, CovgateError>)
    ensures
        !metric_available(*report, metric) ==> (r matches Err(e) && e.message@ == unavailable_message(metric)),
        metric_available(*report, metric) && metric != MetricKind::NamedFunction ==> (r matches Ok(cm)
            && is_changed_metric(*report, diff@, included_paths@, metric, cm)),
        metric_available(*report, metric) && metric == MetricKind::NamedFunction ==> (r matches Ok(cm)
            && is_named_function_metric(*report, diff@, included_paths@, cm)),
{
    if let MetricKind::NamedFunction = metric {
        return compute_changed_named_function_metric(report, diff, included_paths);
    }
    let gi = match find_available_totals(report, metric) {
        Some(i) => i,
        None => {
            return Err(unavailable_error(metric));
        },
    };
    let target_kind = metric.to_opportunity_kind();
    let ops = &report.opportunities;
    let mut covered: usize = 0;
    let mut total: usize = 0;
    let mut uncovered: Vec<CoverageOpportunity> = Vec::new();
    let mut keys: Vec<Vec<char>> = Vec::new();
    let mut vals: Vec<FileTotals> = Vec::new();
    let mut i: usize = 0;
    proof {
        assert(key_views(keys@) =~= Seq::<Seq<char>>::empty());
        assert(lists_map(key_views(keys@), vals@, Map::<Seq<char>, FileTotals>::empty()));
        assert(ops@.subrange(0, 0) =~= Seq::<CoverageOpportunity>::empty());
    }
    while i < ops.len()
        invariant
            i <= ops@.len(),
            target_kind == opportunity_kind_of(metric),
            ({
                let sel = selected(ops@.subrange(0, i as int), target_kind, included_paths@, diff@);
                &&& total == sel.len()
                &&& covered == covered_count(sel)
                &&& uncovered@ == uncovered_of(sel)
                &&& lists_map(key_views(keys@), vals@, per_file_totals(sel))
            }),
            total <= i,
            covered <= total,
            forall|j: int| 0 <= j < vals@.len() ==> #[trigger] vals@[j].total <= total,
            forall|j: int| 0 <= j < vals@.len() ==> #[trigger] vals@[j].covered <= vals@[j].total,
        decreases ops@.len() - i,
    {
        let ghost prefix = ops@.subrange(0, i as int);
        let ghost sel = selected(prefix, target_kind, included_paths@, diff@);
        let o = &ops[i];
        proof {
            assert(ops@.subrange(0, i + 1).drop_last() =~= prefix);
            assert(ops@.subrange(0, i + 1).last() == ops@[i as int]);
        }
        if o.kind == target_kind && includes_path(included_paths, &o.span.path) && is_span_changed(
            diff,
            &o.span,
        ) {
            assert(sel.push(*o).drop_last() =~= sel);
            let pc = chars_of(o.span.path.as_str());
            bump_file(&mut keys, &mut vals, pc.as_slice(), o.covered, Ghost(per_file_totals(sel)), Ghost(total as nat));
            total = total + 1;
            if o.covered {
                covered = covered + 1;
            } else {
                uncovered.push(o.clone());
            }
        }
        i = i + 1;
    }
    assert(ops@.subrange(0, ops@.len() as int) =~= ops@);
    let changed_totals_by_file = table_to_totals(&keys, &vals, Ghost(per_file_totals(selected(ops@, target_kind, included_paths@, diff@))));
    let totals_by_file = copy_totals(&report.totals_by_file[gi].1);
    Ok(ComputedMetric {
        metric,
        covered,
        total,
        uncovered_changed_opportunities: uncovered,
        changed_totals_by_file,
        totals_by_file,
    })
}

/// The identity of a named-function group: file and function identity.
pub type GroupKey = (Seq<char>, Seq<char>);

/// Groups order by file (path order), then by identity (code-point order).
pub open spec fn group_lt(a: GroupKey, b: GroupKey) -> bool {
    path_lt(a.0, b.0) || (a.0 == b.0 && str_lt(a.1, b.1))
}

pub open spec fn group_order() -> spec_fn(GroupKey, GroupKey) -> bool {
    |a: GroupKey, b: GroupKey| group_lt(a, b)
}

pub proof fn lemma_group_order_total()
    ensures
        strict_total(group_order()),
{
    assert forall|a: GroupKey| #![trigger group_order()(a, a)] !group_order()(a, a) by {
        lemma_path_order(a.0, a.0, a.0);
        lemma_str_order(a.1, a.1, a.1);
    }
    assert forall|a: GroupKey, b: GroupKey, c: GroupKey|
        #![trigger group_order()(a, b), group_order()(b, c)]
        group_order()(a, b) && group_order()(b, c) implies group_order()(a, c) by {
        lemma_path_order(a.0, b.0, c.0);
        lemma_str_order(a.1, b.1, c.1);
        lemma_path_order(a.0, a.0, c.0);
    }
    assert forall|a: GroupKey, b: GroupKey| #![trigger group_order()(a, b)] a != b implies group_order()(a, b)
        || group_order()(b, a) by {
        lemma_path_order(a.0, b.0, b.0);
        lemma_str_order(a.1, b.1, b.1);
    }
}

/// The opportunity is a named function that lies in an included file and overlaps a changed line.
pub open spec fn named_counts(o: CoverageOpportunity, paths: Seq<String>, diff: Seq<ChangedFile>) -> bool {
    o.kind == OpportunityKind::Function && o.named_function_identity is Some && path_included(
        paths,
        o.span.path@,
    ) && span_changed(diff, o.span)
}

pub open spec fn group_key_of(o: CoverageOpportunity) -> GroupKey {
    (o.span.path@, o.named_function_identity->Some_0@)
}

/// The named-function groups of `ops`: per file and identity, whether any member
/// is covered, and the member with the smallest span (the first of equals).
pub open spec fn named_groups(ops: Seq<CoverageOpportunity>, paths: Seq<String>, diff: Seq<ChangedFile>) -> Map<
    GroupKey,
    (bool, CoverageOpportunity),
>
    decreases ops.len(),
{
    if ops.len() == 0 {
        Map::empty()
    } else {
        let g = named_groups(ops.drop_last(), paths, diff);
        let o = ops.last();
        if !named_counts(o, paths, diff) {
            g
        } else {
            let k = group_key_of(o);
            if g.contains_key(k) {
                let prev = g[k];
                g.insert(
                    k,
                    (
                        prev.0 || o.covered,
                        if span_key_lt(span_key_of(o.span), span_key_of(prev.1.span)) {
                            o
                        } else {
                            prev.1
                        },
                    ),
                )
            } else {
                g.insert(k, (o.covered, o))
            }
        }
    }
}

/// How many of the listed groups are covered.
pub open spec fn groups_covered(groups: Seq<(bool, CoverageOpportunity)>) -> nat
    decreases groups.len(),
{
    if groups.len() == 0 {
        0
    } else {
        groups_covered(groups.drop_last()) + if groups.last().0 {
            1nat
        } else {
            0nat
        }
    }
}

/// The representatives of the uncovered listed groups, in order.
pub open spec fn groups_uncovered(groups: Seq<(bool, CoverageOpportunity)>) -> Seq<CoverageOpportunity>
    decreases groups.len(),
{
    if groups.len() == 0 {
        seq![]
    } else if groups.last().0 {
        groups_uncovered(groups.drop_last())
    } else {
        groups_uncovered(groups.drop_last()).push(groups.last().1)
    }
}

/// Covered and total group counts per file of the listed groups.
pub open spec fn group_file_totals(keys: Seq<GroupKey>, groups: Seq<(bool, CoverageOpportunity)>) -> Map<
    Seq<char>,
    FileTotals,
>
    decreases keys.len(),
{
    if keys.len() == 0 || groups.len() == 0 {
        Map::empty()
    } else {
        let m = group_file_totals(keys.drop_last(), groups.drop_last());
        let p = keys.last().0;
        let prev = if m.contains_key(p) {
            m[p]
        } else {
            FileTotals { covered: 0, total: 0 }
        };
        m.insert(
            p,
            FileTotals {
                covered: (prev.covered + if groups.last().0 {
                    1nat
                } else {
                    0nat
                }) as usize,
                total: (prev.total + 1) as usize,
            },
        )
    }
}

/// What `compute_changed_metric` gives for named functions: one opportunity per
/// changed named-function group, covered when any member is, with the groups
/// listed in (file, identity) order and each uncovered group shown by its
/// smallest-span member.
pub open spec fn is_named_function_metric(
    report: CoverageReport,
    diff: Seq<ChangedFile>,
    paths: Seq<String>,
    r: ComputedMetric,
) -> bool {
    exists|keys: Seq<GroupKey>, groups: Seq<(bool, CoverageOpportunity)>|
        #![trigger lists_by(keys, groups, named_groups(report.opportunities@, paths, diff), group_order())]
        {
            &&& lists_by(keys, groups, named_groups(report.opportunities@, paths, diff), group_order())
            &&& r.metric == MetricKind::NamedFunction
            &&& r.total == keys.len()
            &&& r.covered == groups_covered(groups)
            &&& r.uncovered_changed_opportunities@ == groups_uncovered(groups)
            &&& lists_totals(r.changed_totals_by_file@, group_file_totals(keys, groups))
            &&& Some(r.totals_by_file@) == totals_lookup(
                report.totals_by_file@,
                MetricKind::NamedFunction,
            )
        }
}

pub open spec fn gkey_views(keys: Seq<(Vec<char>, Vec<char>)>) -> Seq<GroupKey> {
    keys.map_values(|k: (Vec<char>, Vec<char>)| (k.0@, k.1@))
}

/// Whether group key `a` sorts strictly before `b`.
fn group_less(a: &(Vec<char>, Vec<char>), b: &(Vec<char>, Vec<char>)) -> (r: bool)
    ensures
        r == group_lt((a.0@, a.1@), (b.0@, b.1@)),
{
    if path_less(a.0.as_slice(), b.0.as_slice()) {
        true
    } else if chars_equal(a.0.as_slice(), b.0.as_slice()) {
        str_less(a.1.as_slice(), b.1.as_slice())
    } else {
        false
    }
}

fn group_locate(keys: &Vec<(Vec<char>, Vec<char>)>, k: &(Vec<char>, Vec<char>)) -> (r: (usize, bool))
    requires
        forall|i: int, j: int|
            0 <= i < j < keys@.len() ==> group_lt(
                #[trigger] gkey_views(keys@)[i],
                #[trigger] gkey_views(keys@)[j],
            ),
    ensures
        r.0 <= keys@.len(),
        forall|i: int| 0 <= i < r.0 ==> group_lt(#[trigger] gkey_views(keys@)[i], (k.0@, k.1@)),
        r.1 ==> r.0 < keys@.len() && gkey_views(keys@)[r.0 as int] == (k.0@, k.1@),
        !r.1 ==> r.0 == keys@.len() || group_lt((k.0@, k.1@), gkey_views(keys@)[r.0 as int]),
{
    let ghost kv = (k.0@, k.1@);
    let mut p: usize = 0;
    while p < keys.len() && group_less(&keys[p], k)
        invariant
            p <= keys@.len(),
            kv == (k.0@, k.1@),
            forall|i: int| 0 <= i < p ==> group_lt(#[trigger] gkey_views(keys@)[i], kv),
        decreases keys@.len() - p,
    {
        assert(gkey_views(keys@)[p as int] == (keys@[p as int].0@, keys@[p as int].1@));
        p = p + 1;
    }
    if p < keys.len() {
        assert(gkey_views(keys@)[p as int] == (keys@[p as int].0@, keys@[p as int].1@));
    }
    if p < keys.len() && chars_equal(keys[p].0.as_slice(), k.0.as_slice()) && chars_equal(
        keys[p].1.as_slice(),
        k.1.as_slice(),
    ) {
        (p, true)
    } else {
        if p < keys.len() {
            proof {
                lemma_group_order_total();
                let kp = gkey_views(keys@)[p as int];
                assert(kp != kv);
                assert(group_order()(kp, kv) || group_order()(kv, kp));
            }
        }
        (p, false)
    }
}

fn compute_changed_named_function_metric(
    report: &CoverageReport,
    diff: &[ChangedFile],
    included_paths: &[String],
) -> (r: Result<ComputedMetric, CovgateError>)
    ensures
        !metric_available(*report, MetricKind::NamedFunction) ==> (r matches Err(e) && e.message@
            == unavailable_message(MetricKind::NamedFunction)),
        metric_available(*report, MetricKind::NamedFunction) ==> (r matches Ok(cm)
            && is_named_function_metric(*report, diff@, included_paths@, cm)),
{
    let gi = match find_available_totals(report, MetricKind::NamedFunction) {
        Some(i) => i,
        None => {
            return Err(unavailable_error(MetricKind::NamedFunction));
        },
    };
    let ops = &report.opportunities;
    let mut gkeys: Vec<(Vec<char>, Vec<char>)> = Vec::new();
    let mut gvals: Vec<(bool, CoverageOpportunity)> = Vec::new();
    let mut i: usize = 0;
    proof {
        lemma_group_order_total();
        assert(gkey_views(gkeys@) =~= Seq::<GroupKey>::empty());
        assert(ops@.subrange(0, 0) =~= Seq::<CoverageOpportunity>::empty());
    }
    while i < ops.len()
        invariant
            i <= ops@.len(),
            strict_total(group_order()),
            lists_by(
                gkey_views(gkeys@),
                gvals@,
                named_groups(ops@.subrange(0, i as int), included_paths@, diff@),
                group_order(),
            ),
        decreases ops@.len() - i,
    {
        let ghost prefix = ops@.subrange(0, i as int);
        let ghost g = named_groups(prefix, included_paths@, diff@);
        let ghost ks = gkey_views(gkeys@);
        let o = &ops[i];
        proof {
            assert(ops@.subrange(0, i + 1).drop_last() =~= prefix);
            assert(ops@.subrange(0, i + 1).last() == ops@[i as int]);
        }
        let is_fn = match o.kind {
            OpportunityKind::Function => true,
            _ => false,
        };
        if is_fn && o.named_function_identity.is_some() && includes_path(included_paths, &o.span.path)
            && is_span_changed(diff, &o.span) {
            let ident = match &o.named_function_identity {
                Some(s) => s,
                None => {
                    return Err(unavailable_error(MetricKind::NamedFunction));
                },
            };
            let key = (chars_of(o.span.path.as_str()), chars_of(ident.as_str()));
            assert((key.0@, key.1@) == group_key_of(*o));
            let (p, found) = group_locate(&gkeys, &key);
            if found {
                let prev_covered = gvals[p].0;
                let replace = span_key_less(o.span.key(), gvals[p].1.span.key());
                let rep = if replace {
                    o.clone()
                } else {
                    gvals[p].1.clone()
                };
                let nv = (prev_covered || o.covered, rep);
                proof {
                    lemma_lists_update(ks, gvals@, g, group_order(), p as int, nv);
                }
                gvals.set(p, nv);
            } else {
                let nv = (o.covered, o.clone());
                proof {
                    lemma_lists_insert(ks, gvals@, g, group_order(), p as int, group_key_of(*o), nv);
                }
                gkeys.insert(p, key);
                gvals.insert(p, nv);
                assert(gkey_views(gkeys@) =~= ks.insert(p as int, group_key_of(*o)));
            }
        }
        i = i + 1;
    }
    assert(ops@.subrange(0, ops@.len() as int) =~= ops@);
    let ghost all_keys = gkey_views(gkeys@);
    let ghost all_groups = gvals@;
    let mut covered: usize = 0;
    let mut total: usize = 0;
    let mut uncovered: Vec<CoverageOpportunity> = Vec::new();
    let mut fkeys: Vec<Vec<char>> = Vec::new();
    let mut fvals: Vec<FileTotals> = Vec::new();
    let mut j: usize = 0;
    proof {
        assert(key_views(fkeys@) =~= Seq::<Seq<char>>::empty());
        assert(all_keys.subrange(0, 0) =~= Seq::<GroupKey>::empty());
        assert(all_groups.subrange(0, 0) =~= Seq::<(bool, CoverageOpportunity)>::empty());
    }
    while j < gkeys.len()
        invariant
            j <= gkeys@.len(),
            all_keys == gkey_views(gkeys@),
            all_groups == gvals@,
            all_keys.len() == all_groups.len(),
            total == j,
            covered <= total,
            covered == groups_covered(all_groups.subrange(0, j as int)),
            uncovered@ == groups_uncovered(all_groups.subrange(0, j as int)),
            lists_map(
                key_views(fkeys@),
                fvals@,
                group_file_totals(all_keys.subrange(0, j as int), all_groups.subrange(0, j as int)),
            ),
            forall|t: int| 0 <= t < fvals@.len() ==> #[trigger] fvals@[t].total <= total,
            forall|t: int| 0 <= t < fvals@.len() ==> #[trigger] fvals@[t].covered <= fvals@[t].total,
        decreases gkeys@.len() - j,
    {
        let ghost ksub = all_keys.subrange(0, j as int);
        let ghost gsub = all_groups.subrange(0, j as int);
        proof {
            assert(all_keys.subrange(0, j + 1).drop_last() =~= ksub);
            assert(all_groups.subrange(0, j + 1).drop_last() =~= gsub);
            assert(all_keys[j as int] == (gkeys@[j as int].0@, gkeys@[j as int].1@));
        }
        let c = gvals[j].0;
        bump_file(
            &mut fkeys,
            &mut fvals,
            gkeys[j].0.as_slice(),
            c,
            Ghost(group_file_totals(ksub, gsub)),
            Ghost(total as nat),
        );
        total = total + 1;
        if c {
            covered = covered + 1;
        } else {
            uncovered.push(gvals[j].1.clone());
        }
        j = j + 1;
    }
    proof {
        assert(all_keys.subrange(0, all_keys.len() as int) =~= all_keys);
        assert(all_groups.subrange(0, all_groups.len() as int) =~= all_groups);
    }
    let changed_totals_by_file = table_to_totals(
        &fkeys,
        &fvals,
        Ghost(group_file_totals(all_keys, all_groups)),
    );
    let totals_by_file = copy_totals(&report.totals_by_file[gi].1);
    let r = ComputedMetric {
        metric: MetricKind::NamedFunction,
        covered,
        total,
        uncovered_changed_opportunities: uncovered,
        changed_totals_by_file,
        totals_by_file,
    };
    assert(lists_by(
        all_keys,
        all_groups,
        named_groups(report.opportunities@, included_paths@, diff@),
        group_order(),
    ));
    Ok(r)
}

/// The sum of the covered counts of a totals list.
pub open spec fn sum_covered(t: Seq<(String, FileTotals)>) -> nat
    decreases t.len(),
{
    if t.len() == 0 {
        0
    } else {
        sum_covered(t.drop_last()) + t.last().1.covered as nat
    }
}

/// The sum of the totals of a totals list.
pub open spec fn sum_total(t: Seq<(String, FileTotals)>) -> nat
    decreases t.len(),
{
    if t.len() == 0 {
        0
    } else {
        sum_total(t.drop_last()) + t.last().1.total as nat
    }
}

proof fn lemma_sum_prefix_bounded(t: Seq<(String, FileTotals)>, i: int)
    requires
        0 <= i <= t.len(),
    ensures
        sum_covered(t.subrange(0, i)) <= sum_covered(t),
        sum_total(t.subrange(0, i)) <= sum_total(t),
    decreases t.len() - i,
{
    if i < t.len() {
        lemma_sum_prefix_bounded(t, i + 1);
        assert(t.subrange(0, i + 1).drop_last() =~= t.subrange(0, i));
    } else {
        assert(t.subrange(0, i) =~= t);
    }
}

/// `cm` is the overall coverage of metric `m`: the sums of the report's per-file
/// totals for it, with those totals and nothing changed.
pub open spec fn is_overall_metric(report: CoverageReport, m: MetricKind, cm: ComputedMetric) -> bool {
    let t = totals_lookup(report.totals_by_file@, m)->Some_0;
    &&& cm.metric == m
    &&& cm.covered == sum_covered(t)
    &&& cm.total == sum_total(t)
    &&& cm.uncovered_changed_opportunities@.len() == 0
    &&& cm.changed_totals_by_file@.len() == 0
    &&& cm.totals_by_file@ == t
}

/// Overall coverage of one metric over every file of the report.
///
/// Fails when the report has no nonzero totals for the metric.
pub fn compute_overall_metric(report: &CoverageReport, metric: MetricKind) -> (r: Result<
    ComputedMetric,
    CovgateError,
>)
    requires
        totals_lookup(report.totals_by_file@, metric) matches Some(t) ==> sum_covered(t)
            <= usize::MAX && sum_total(t) <= usize::MAX,
    ensures
        !metric_available(*report, metric) ==> (r matches Err(e) && e.message@
            == unavailable_message(metric)),
        metric_available(*report, metric) ==> (r matches Ok(cm) && is_overall_metric(*report, metric, cm)),
{
    let gi = match find_available_totals(report, metric) {
        Some(i) => i,
        None => {
            return Err(unavailable_error(metric));
        },
    };
    let files = &report.totals_by_file[gi].1;
    let ghost t = files@;
    let mut covered: usize = 0;
    let mut total: usize = 0;
    let mut i: usize = 0;
    assert(t.subrange(0, 0) =~= Seq::<(String, FileTotals)>::empty());
    while i < files.len()
        invariant
            t == files@,
            sum_covered(t) <= usize::MAX,
            sum_total(t) <= usize::MAX,
            i <= t.len(),
            covered == sum_covered(t.subrange(0, i as int)),
            total == sum_total(t.subrange(0, i as int)),
        decreases t.len() - i,
    {
        proof {
            assert(t.subrange(0, i + 1).drop_last() =~= t.subrange(0, i as int));
            lemma_sum_prefix_bounded(t, i + 1);
        }
        covered = covered + files[i].1.covered;
        total = total + files[i].1.total;
        i = i + 1;
    }
    assert(t.subrange(0, t.len() as int) =~= t);
    Ok(ComputedMetric {
        metric,
        covered,
        total,
        uncovered_changed_opportunities: Vec::new(),
        changed_totals_by_file: Vec::new(),
        totals_by_file: copy_totals(files),
    })
}

proof fn lemma_uncovered_split(s: Seq<CoverageOpportunity>)
    ensures
        covered_count(s) + uncovered_of(s).len() == s.len(),
        forall|i: int|
            0 <= i < uncovered_of(s).len() ==> !(#[trigger] uncovered_of(s)[i]).covered && s.contains(
                uncovered_of(s)[i],
            ),
    decreases s.len(),
{
    if s.len() > 0 {
        let prev = s.drop_last();
        lemma_uncovered_split(prev);
        assert forall|i: int|
            0 <= i < uncovered_of(s).len() implies !(#[trigger] uncovered_of(s)[i]).covered && s.contains(
                uncovered_of(s)[i],
            ) by {
            if i < uncovered_of(prev).len() {
                assert(uncovered_of(s)[i] == uncovered_of(prev)[i]);
                let k = choose|k: int| 0 <= k < prev.len() && prev[k] == uncovered_of(prev)[i];
                assert(s[k] == prev[k]);
            } else {
                assert(uncovered_of(s)[i] == s.last());
                assert(s[s.len() - 1] == s.last());
            }
        }
    }
}

proof fn lemma_selected_count(
    ops: Seq<CoverageOpportunity>,
    kind: OpportunityKind,
    paths: Seq<String>,
    diff: Seq<ChangedFile>,
)
    ensures
        forall|x: CoverageOpportunity| selected(ops, kind, paths, diff).contains(x) ==> counts_toward(x, kind, paths, diff),
    decreases ops.len(),
{
    if ops.len() > 0 {
        let prev = selected(ops.drop_last(), kind, paths, diff);
        lemma_selected_count(ops.drop_last(), kind, paths, diff);
        assert forall|x: CoverageOpportunity| selected(ops, kind, paths, diff).contains(x) implies counts_toward(
            x,
            kind,
            paths,
            diff,
        ) by {
            let s = selected(ops, kind, paths, diff);
            let k = choose|k: int| 0 <= k < s.len() && s[k] == x;
            if k < prev.len() {
                assert(s[k] == prev[k]);
                assert(prev.contains(x));
            }
        }
    }
}

proof fn lemma_groups_split(groups: Seq<(bool, CoverageOpportunity)>)
    ensures
        groups_covered(groups) + groups_uncovered(groups).len() == groups.len(),
        forall|i: int|
            0 <= i < groups_uncovered(groups).len() ==> exists|j: int|
                0 <= j < groups.len() && !groups[j].0 && groups[j].1 == #[trigger] groups_uncovered(groups)[i],
    decreases groups.len(),
{
    if groups.len() > 0 {
        let prev = groups.drop_last();
        lemma_groups_split(prev);
        assert forall|i: int| 0 <= i < groups_uncovered(groups).len() implies exists|j: int|
            0 <= j < groups.len() && !groups[j].0 && groups[j].1 == #[trigger] groups_uncovered(groups)[i] by {
            if i < groups_uncovered(prev).len() {
                assert(groups_uncovered(groups)[i] == groups_uncovered(prev)[i]);
                let j = choose|j: int|
                    0 <= j < prev.len() && !prev[j].0 && prev[j].1 == groups_uncovered(prev)[i];
                assert(groups[j] == prev[j]);
            } else {
                assert(groups[groups.len() - 1] == groups.last());
            }
        }
    }
}

proof fn lemma_named_groups_members(ops: Seq<CoverageOpportunity>, paths: Seq<String>, diff: Seq<ChangedFile>)
    ensures
        forall|k: GroupKey|
            #![trigger named_groups(ops, paths, diff)[k]]
            named_groups(ops, paths, diff).contains_key(k) ==> {
                let g = named_groups(ops, paths, diff)[k];
                &&& named_counts(g.1, paths, diff)
                &&& (!g.0 ==> !g.1.covered)
            },
    decreases ops.len(),
{
    if ops.len() > 0 {
        lemma_named_groups_members(ops.drop_last(), paths, diff);
    }
}

/// The opportunity is uncovered, of the kind that `metric` counts, in an included
/// file and on a changed line.
pub open spec fn uncovered_changed(
    o: CoverageOpportunity,
    metric: MetricKind,
    paths: Seq<String>,
    diff: Seq<ChangedFile>,
) -> bool {
    &&& !o.covered
    &&& o.kind == opportunity_kind_of(metric)
    &&& path_included(paths, o.span.path@)
    &&& span_changed(diff, o.span)
}

/// A changed metric accounts for every counted opportunity: its covered count and
/// the number of uncovered opportunities it lists add up to its total, and each
/// listed opportunity is uncovered, of the metric's kind (a named function for
/// the named-function metric), in an included file and on a changed line.
pub proof fn lemma_changed_metric_balance(
    report: CoverageReport,
    diff: Seq<ChangedFile>,
    paths: Seq<String>,
    metric: MetricKind,
    r: ComputedMetric,
)
    requires
        metric != MetricKind::NamedFunction ==> is_changed_metric(report, diff, paths, metric, r),
        metric == MetricKind::NamedFunction ==> is_named_function_metric(report, diff, paths, r),
    ensures
        r.covered + r.uncovered_changed_opportunities@.len() == r.total,
        forall|i: int|
            0 <= i < r.uncovered_changed_opportunities@.len() ==> uncovered_changed(
                #[trigger] r.uncovered_changed_opportunities@[i],
                metric,
                paths,
                diff,
            ),
{
    if metric != MetricKind::NamedFunction {
        let sel = selected(report.opportunities@, opportunity_kind_of(metric), paths, diff);
        lemma_uncovered_split(sel);
        lemma_selected_count(report.opportunities@, opportunity_kind_of(metric), paths, diff);
        assert forall|i: int| 0 <= i < r.uncovered_changed_opportunities@.len() implies uncovered_changed(
            #[trigger] r.uncovered_changed_opportunities@[i],
            metric,
            paths,
            diff,
        ) by {
            let o = uncovered_of(sel)[i];
            assert(o == r.uncovered_changed_opportunities@[i]);
            assert(sel.contains(o));
            assert(counts_toward(o, opportunity_kind_of(metric), paths, diff));
        }
    } else {
        let m = named_groups(report.opportunities@, paths, diff);
        let (keys, groups) = choose|keys: Seq<GroupKey>, groups: Seq<(bool, CoverageOpportunity)>|
            #![trigger lists_by(keys, groups, named_groups(report.opportunities@, paths, diff), group_order())]
            {
                &&& lists_by(keys, groups, named_groups(report.opportunities@, paths, diff), group_order())
                &&& r.metric == MetricKind::NamedFunction
                &&& r.total == keys.len()
                &&& r.covered == groups_covered(groups)
                &&& r.uncovered_changed_opportunities@ == groups_uncovered(groups)
                &&& lists_totals(r.changed_totals_by_file@, group_file_totals(keys, groups))
                &&& Some(r.totals_by_file@) == totals_lookup(
                    report.totals_by_file@,
                    MetricKind::NamedFunction,
                )
            };
        lemma_groups_split(groups);
        lemma_named_groups_members(report.opportunities@, paths, diff);
        assert forall|i: int| 0 <= i < r.uncovered_changed_opportunities@.len() implies uncovered_changed(
            #[trigger] r.uncovered_changed_opportunities@[i],
            metric,
            paths,
            diff,
        ) by {
            let u = groups_uncovered(groups)[i];
            assert(u == r.uncovered_changed_opportunities@[i]);
            let j = choose|j: int| 0 <= j < groups.len() && !groups[j].0 && groups[j].1 == u;
            assert(m.contains_key(keys[j]) && m[keys[j]] == groups[j]);
            assert(named_counts(m[keys[j]].1, paths, diff));
        }
    }
}

/// Covered and total counts per path of a sequence of (path, covered) pairs.
spec fn tally(s: Seq<(Seq<char>, bool)>) -> Map<Seq<char>, FileTotals>
    decreases s.len(),
{
    if s.len() == 0 {
        Map::empty()
    } else {
        let m = tally(s.drop_last());
        let p = s.last().0;
        let prev = if m.contains_key(p) {
            m[p]
        } else {
            FileTotals { covered: 0, total: 0 }
        };
        m.insert(
            p,
            FileTotals {
                covered: (prev.covered + if s.last().1 {
                    1nat
                } else {
                    0nat
                }) as usize,
                total: (prev.total + 1) as usize,
            },
        )
    }
}

spec fn count_flags(s: Seq<(Seq<char>, bool)>) -> nat
    decreases s.len(),
{
    if s.len() == 0 {
        0
    } else {
        count_flags(s.drop_last()) + if s.last().1 {
            1nat
        } else {
            0nat
        }
    }
}

spec fn op_flags(ops: Seq<CoverageOpportunity>) -> Seq<(Seq<char>, bool)> {
    ops.map_values(|o: CoverageOpportunity| (o.span.path@, o.covered))
}

spec fn group_flags(keys: Seq<GroupKey>, groups: Seq<(bool, CoverageOpportunity)>) -> Seq<(Seq<char>, bool)> {
    Seq::new(keys.len(), |i: int| (keys[i].0, groups[i].0))
}

proof fn lemma_op_flags(ops: Seq<CoverageOpportunity>)
    ensures
        per_file_totals(ops) == tally(op_flags(ops)),
        covered_count(ops) == count_flags(op_flags(ops)),
    decreases ops.len(),
{
    if ops.len() > 0 {
        lemma_op_flags(ops.drop_last());
        assert(op_flags(ops).drop_last() =~= op_flags(ops.drop_last()));
    }
}

proof fn lemma_group_flags(keys: Seq<GroupKey>, groups: Seq<(bool, CoverageOpportunity)>)
    requires
        keys.len() == groups.len(),
    ensures
        group_file_totals(keys, groups) == tally(group_flags(keys, groups)),
        groups_covered(groups) == count_flags(group_flags(keys, groups)),
    decreases keys.len(),
{
    if keys.len() > 0 {
        lemma_group_flags(keys.drop_last(), groups.drop_last());
        assert(group_flags(keys, groups).drop_last() =~= group_flags(keys.drop_last(), groups.drop_last()));
    }
}

proof fn lemma_selected_len(
    ops: Seq<CoverageOpportunity>,
    kind: OpportunityKind,
    paths: Seq<String>,
    diff: Seq<ChangedFile>,
)
    ensures
        selected(ops, kind, paths, diff).len() <= ops.len(),
    decreases ops.len(),
{
    if ops.len() > 0 {
        lemma_selected_len(ops.drop_last(), kind, paths, diff);
    }
}

proof fn lemma_tally_bounds(s: Seq<(Seq<char>, bool)>)
    requires
        s.len() <= usize::MAX,
    ensures
        forall|k: Seq<char>| #[trigger] tally(s).contains_key(k) ==> tally(s)[k].covered <= tally(s)[k].total <= s.len(),
    decreases s.len(),
{
    if s.len() > 0 {
        let prev = s.drop_last();
        let pm = tally(prev);
        let p = s.last().0;
        lemma_tally_bounds(prev);
        assert forall|k: Seq<char>| #[trigger] tally(s).contains_key(k) implies tally(s)[k].covered <= tally(
            s,
        )[k].total <= s.len() by {
            if k == p {
                let old_t = if pm.contains_key(p) {
                    pm[p]
                } else {
                    FileTotals { covered: 0, total: 0 }
                };
                assert(old_t.covered <= old_t.total <= prev.len());
                assert(tally(s)[k].total == old_t.total + 1);
            } else {
                assert(tally(s)[k] == pm[k]);
            }
        }
    }
}

proof fn lemma_sum_update(t: Seq<(String, FileTotals)>, k: int, x: (String, FileTotals))
    requires
        0 <= k < t.len(),
    ensures
        sum_total(t.update(k, x)) + t[k].1.total == sum_total(t) + x.1.total,
        sum_covered(t.update(k, x)) + t[k].1.covered == sum_covered(t) + x.1.covered,
    decreases t.len(),
{
    if k < t.len() - 1 {
        assert(t.update(k, x).drop_last() =~= t.drop_last().update(k, x));
        lemma_sum_update(t.drop_last(), k, x);
    } else {
        assert(t.update(k, x).drop_last() =~= t.drop_last());
    }
}

proof fn lemma_sum_remove(t: Seq<(String, FileTotals)>, k: int)
    requires
        0 <= k < t.len(),
    ensures
        sum_total(t.remove(k)) + t[k].1.total == sum_total(t),
        sum_covered(t.remove(k)) + t[k].1.covered == sum_covered(t),
    decreases t.len(),
{
    if k < t.len() - 1 {
        assert(t.remove(k).drop_last() =~= t.drop_last().remove(k));
        lemma_sum_remove(t.drop_last(), k);
    } else {
        assert(t.remove(k) =~= t.drop_last());
    }
}

proof fn lemma_keys_distinct(t: Seq<(String, FileTotals)>, m: Map<Seq<char>, FileTotals>, i: int, j: int)
    requires
        lists_totals(t, m),
        0 <= i < t.len(),
        0 <= j < t.len(),
        i != j,
    ensures
        t[i].0@ != t[j].0@,
{
    let ks = totals_keys(t);
    assert(ks[i] == t[i].0@ && ks[j] == t[j].0@);
    lemma_path_order(ks[i], ks[j], ks[j]);
    lemma_path_order(ks[j], ks[i], ks[i]);
}

proof fn lemma_tally_sums(s: Seq<(Seq<char>, bool)>, t: Seq<(String, FileTotals)>)
    requires
        s.len() <= usize::MAX,
        lists_totals(t, tally(s)),
    ensures
        sum_total(t) == s.len(),
        sum_covered(t) == count_flags(s),
    decreases s.len(),
{
    let m = tally(s);
    let ks = totals_keys(t);
    let vs = totals_vals(t);
    if s.len() == 0 {
        if t.len() > 0 {
            assert(m.contains_key(ks[0]));
        }
    } else {
        let prev = s.drop_last();
        let pm = tally(prev);
        let p = s.last().0;
        lemma_tally_bounds(prev);
        assert(ks.contains(p) || !m.contains_key(p));
        assert(m.contains_key(p));
        let k = choose|k: int| 0 <= k < ks.len() && ks[k] == p;
        assert(t[k].0@ == p);
        if pm.contains_key(p) {
            let x = (t[k].0, pm[p]);
            let t0 = t.update(k, x);
            assert(totals_keys(t0) =~= ks);
            assert forall|i: int| 0 <= i < t0.len() implies pm.contains_key(#[trigger] totals_keys(t0)[i])
                && pm[totals_keys(t0)[i]] == totals_vals(t0)[i] by {
                if i != k {
                    lemma_keys_distinct(t, m, i, k);
                    assert(t0[i] == t[i]);
                    assert(m.contains_key(ks[i]) && m[ks[i]] == vs[i]);
                }
            }
            assert forall|q: Seq<char>| pm.contains_key(q) implies exists|i: int|
                0 <= i < totals_keys(t0).len() && #[trigger] totals_keys(t0)[i] == q by {
                assert(m.contains_key(q));
                let i = choose|i: int| 0 <= i < ks.len() && ks[i] == q;
                assert(totals_keys(t0)[i] == q);
            }
            lemma_tally_sums(prev, t0);
            lemma_sum_update(t, k, x);
        } else {
            let t0 = t.remove(k);
            assert forall|i: int| 0 <= i < t0.len() implies pm.contains_key(#[trigger] totals_keys(t0)[i])
                && pm[totals_keys(t0)[i]] == totals_vals(t0)[i] by {
                let j = if i < k { i } else { i + 1 };
                assert(t0[i] == t[j]);
                lemma_keys_distinct(t, m, j, k);
                assert(m.contains_key(ks[j]) && m[ks[j]] == vs[j]);
            }
            assert forall|a: int, b: int| 0 <= a < b < totals_keys(t0).len() implies path_order()(
                #[trigger] totals_keys(t0)[a],
                #[trigger] totals_keys(t0)[b],
            ) by {
                let ja = if a < k { a } else { a + 1 };
                let jb = if b < k { b } else { b + 1 };
                assert(t0[a] == t[ja] && t0[b] == t[jb]);
                assert(ks[ja] == totals_keys(t0)[a] && ks[jb] == totals_keys(t0)[b]);
            }
            assert forall|q: Seq<char>| pm.contains_key(q) implies exists|i: int|
                0 <= i < totals_keys(t0).len() && #[trigger] totals_keys(t0)[i] == q by {
                assert(m.contains_key(q));
                let i = choose|i: int| 0 <= i < ks.len() && ks[i] == q;
                assert(i != k);
                let i0 = if i < k { i } else { i - 1 };
                assert(t0[i0] == t[i]);
                assert(totals_keys(t0)[i0] == q);
            }
            assert(totals_keys(t0).len() == totals_vals(t0).len());
            lemma_tally_sums(prev, t0);
            lemma_sum_remove(t, k);
        }
    }
}

/// A changed metric's per-file table adds up to the metric: the covered counts of
/// its files sum to its covered count, and their totals to its total.
pub proof fn lemma_changed_totals_add_up(
    report: CoverageReport,
    diff: Seq<ChangedFile>,
    paths: Seq<String>,
    metric: MetricKind,
    r: ComputedMetric,
)
    requires
        metric != MetricKind::NamedFunction ==> is_changed_metric(report, diff, paths, metric, r),
        metric == MetricKind::NamedFunction ==> is_named_function_metric(report, diff, paths, r),
    ensures
        sum_covered(r.changed_totals_by_file@) == r.covered,
        sum_total(r.changed_totals_by_file@) == r.total,
{
    if metric != MetricKind::NamedFunction {
        let ops = report.opportunities@;
        let sel = selected(ops, opportunity_kind_of(metric), paths, diff);
        assert(report.opportunities.len() == ops.len());
        lemma_selected_len(ops, opportunity_kind_of(metric), paths, diff);
        lemma_op_flags(sel);
        assert(op_flags(sel).len() == sel.len());
        lemma_tally_sums(op_flags(sel), r.changed_totals_by_file@);
    } else {
        let (keys, groups) = choose|keys: Seq<GroupKey>, groups: Seq<(bool, CoverageOpportunity)>|
            #![trigger lists_by(keys, groups, named_groups(report.opportunities@, paths, diff), group_order())]
            {
                &&& lists_by(keys, groups, named_groups(report.opportunities@, paths, diff), group_order())
                &&& r.metric == MetricKind::NamedFunction
                &&& r.total == keys.len()
                &&& r.covered == groups_covered(groups)
                &&& r.uncovered_changed_opportunities@ == groups_uncovered(groups)
                &&& lists_totals(r.changed_totals_by_file@, group_file_totals(keys, groups))
                &&& Some(r.totals_by_file@) == totals_lookup(
                    report.totals_by_file@,
                    MetricKind::NamedFunction,
                )
            };
        lemma_group_flags(keys, groups);
        assert(group_flags(keys, groups).len() == keys.len());
        lemma_tally_sums(group_flags(keys, groups), r.changed_totals_by_file@);
    }
}


/// Some changed range `[a, b]` of the file of `s` meets the lines of `s`:
/// `s.start_line <= b` and `a <= s.end_line`.
pub open spec fn touches_changed_line(diff: Seq<ChangedFile>, s: SourceSpan) -> bool {
    exists|i: int, j: int|
        0 <= i < diff.len() && diff[i].path@ == s.path@ && 0 <= j < diff[i].changed_lines@.len() && s.start_line
            <= #[trigger] diff[i].changed_lines@[j].end && diff[i].changed_lines@[j].start <= s.end_line
}

/// The opportunity is of the metric's kind, lies in an included file, and meets a
/// changed range of that file.
pub open spec fn changed_opportunity(
    o: CoverageOpportunity,
    kind: OpportunityKind,
    paths: Seq<String>,
    diff: Seq<ChangedFile>,
) -> bool {
    &&& o.kind == kind
    &&& exists|p: int| 0 <= p < paths.len() && #[trigger] paths[p]@ == o.span.path@
    &&& touches_changed_line(diff, o.span)
}

proof fn lemma_counts_toward_iff(o: CoverageOpportunity, kind: OpportunityKind, paths: Seq<String>, diff: Seq<ChangedFile>)
    ensures
        counts_toward(o, kind, paths, diff) == changed_opportunity(o, kind, paths, diff),
{
    let s = o.span;
    if span_changed(diff, s) {
        let (i, j) = choose|i: int, j: int|
            0 <= i < diff.len() && diff[i].path@ == s.path@ && 0 <= j < diff[i].changed_lines@.len() && overlaps(
                s,
                #[trigger] diff[i].changed_lines@[j].start,
                diff[i].changed_lines@[j].end,
            );
        assert(diff[i].changed_lines@[j].end == diff[i].changed_lines@[j].end);
        assert(touches_changed_line(diff, s));
    }
    if touches_changed_line(diff, s) {
        let (i, j) = choose|i: int, j: int|
            0 <= i < diff.len() && diff[i].path@ == s.path@ && 0 <= j < diff[i].changed_lines@.len() && s.start_line
                <= #[trigger] diff[i].changed_lines@[j].end && diff[i].changed_lines@[j].start <= s.end_line;
        assert(overlaps(s, diff[i].changed_lines@[j].start, diff[i].changed_lines@[j].end));
        assert(span_changed(diff, s));
    }
}

proof fn lemma_selected_is_filter(ops: Seq<CoverageOpportunity>, kind: OpportunityKind, paths: Seq<String>, diff: Seq<ChangedFile>)
    ensures
        selected(ops, kind, paths, diff) == ops.filter(|o: CoverageOpportunity| changed_opportunity(o, kind, paths, diff)),
    decreases ops.len(),
{
    reveal_with_fuel(Seq::filter, 1);
    if ops.len() > 0 {
        lemma_selected_is_filter(ops.drop_last(), kind, paths, diff);
        lemma_counts_toward_iff(ops.last(), kind, paths, diff);
    }
}

proof fn lemma_covered_is_filter(ops: Seq<CoverageOpportunity>)
    ensures
        covered_count(ops) == ops.filter(|o: CoverageOpportunity| o.covered).len(),
        uncovered_of(ops) == ops.filter(|o: CoverageOpportunity| !o.covered),
    decreases ops.len(),
{
    reveal_with_fuel(Seq::filter, 1);
    if ops.len() > 0 {
        lemma_covered_is_filter(ops.drop_last());
    }
}

/// An opportunity counts toward a changed metric exactly when it is of the
/// metric's kind, lies in an included file, and shares at least one line with a
/// changed range of that file: the total is the number of such opportunities of
/// the report, the covered count the number of those covered, and the uncovered
/// ones are listed in report order.
pub proof fn lemma_changed_metric_counts_touching(
    report: CoverageReport,
    diff: Seq<ChangedFile>,
    paths: Seq<String>,
    metric: MetricKind,
    r: ComputedMetric,
)
    requires
        is_changed_metric(report, diff, paths, metric, r),
    ensures
        ({
            let hit = report.opportunities@.filter(
                |o: CoverageOpportunity| changed_opportunity(o, opportunity_kind_of(metric), paths, diff),
            );
            &&& r.total == hit.len()
            &&& r.covered == hit.filter(|o: CoverageOpportunity| o.covered).len()
            &&& r.uncovered_changed_opportunities@ == hit.filter(|o: CoverageOpportunity| !o.covered)
        }),
{
    let kind = opportunity_kind_of(metric);
    lemma_selected_is_filter(report.opportunities@, kind, paths, diff);
    let sel = selected(report.opportunities@, kind, paths, diff);
    lemma_covered_is_filter(sel);
}


/// A named function of an included file that meets a changed range, with group
/// key `k`, stands at index `i` of `ops`.
pub open spec fn changed_named_at(
    ops: Seq<CoverageOpportunity>,
    paths: Seq<String>,
    diff: Seq<ChangedFile>,
    k: GroupKey,
    i: int,
) -> bool {
    &&& 0 <= i < ops.len()
    &&& ops[i].named_function_identity is Some
    &&& changed_opportunity(ops[i], OpportunityKind::Function, paths, diff)
    &&& ops[i].span.path@ == k.0
    &&& ops[i].named_function_identity->Some_0@ == k.1
}

/// The named-function groups are the (file, identity) pairs of the named
/// functions in included files that meet a changed range, one group per pair; a
/// group is covered exactly when one of its functions is.
pub proof fn lemma_named_groups_are_changed_functions(
    ops: Seq<CoverageOpportunity>,
    paths: Seq<String>,
    diff: Seq<ChangedFile>,
)
    ensures
        forall|k: GroupKey|
            #![trigger named_groups(ops, paths, diff).contains_key(k)]
            named_groups(ops, paths, diff).contains_key(k) <==> exists|i: int| #[trigger]
                changed_named_at(ops, paths, diff, k, i),
        forall|k: GroupKey|
            #![trigger named_groups(ops, paths, diff)[k]]
            named_groups(ops, paths, diff).contains_key(k) ==> (named_groups(ops, paths, diff)[k].0 <==> exists|i: int|
                #[trigger] changed_named_at(ops, paths, diff, k, i) && ops[i].covered),
    decreases ops.len(),
{
    if ops.len() > 0 {
        let prev = ops.drop_last();
        lemma_named_groups_are_changed_functions(prev, paths, diff);
        let o = ops.last();
        let n = ops.len() - 1;
        lemma_counts_toward_iff(o, OpportunityKind::Function, paths, diff);
        assert(named_counts(o, paths, diff) == (o.named_function_identity is Some && changed_opportunity(
            o,
            OpportunityKind::Function,
            paths,
            diff,
        )));
        assert forall|k: GroupKey, i: int| 0 <= i < n implies changed_named_at(ops, paths, diff, k, i)
            == #[trigger] changed_named_at(prev, paths, diff, k, i) by {
            assert(ops[i] == prev[i]);
        }
        let g = named_groups(ops, paths, diff);
        let gp = named_groups(prev, paths, diff);
        assert forall|k: GroupKey| #![trigger g.contains_key(k)] g.contains_key(k) <==> exists|i: int| #[trigger]
            changed_named_at(ops, paths, diff, k, i) by {
            if g.contains_key(k) {
                if gp.contains_key(k) {
                    let i = choose|i: int| #[trigger] changed_named_at(prev, paths, diff, k, i);
                    assert(changed_named_at(ops, paths, diff, k, i));
                } else {
                    assert(changed_named_at(ops, paths, diff, k, n));
                }
            }
            if exists|i: int| #[trigger] changed_named_at(ops, paths, diff, k, i) {
                let i = choose|i: int| #[trigger] changed_named_at(ops, paths, diff, k, i);
                if i < n {
                    assert(changed_named_at(prev, paths, diff, k, i));
                }
            }
        }
        assert forall|k: GroupKey| #![trigger g[k]] g.contains_key(k) implies (g[k].0 <==> exists|i: int|
            #[trigger] changed_named_at(ops, paths, diff, k, i) && ops[i].covered) by {
            if exists|i: int| #[trigger] changed_named_at(ops, paths, diff, k, i) && ops[i].covered {
                let i = choose|i: int| #[trigger] changed_named_at(ops, paths, diff, k, i) && ops[i].covered;
                if i < n {
                    assert(changed_named_at(prev, paths, diff, k, i) && prev[i].covered);
                }
            }
            if gp.contains_key(k) && gp[k].0 {
                let i = choose|i: int| #[trigger] changed_named_at(prev, paths, diff, k, i) && prev[i].covered;
                assert(changed_named_at(ops, paths, diff, k, i) && ops[i].covered);
            }
            if named_counts(o, paths, diff) && group_key_of(o) == k && o.covered {
                assert(changed_named_at(ops, paths, diff, k, n) && ops[n].covered);
            }
        }
    }
}

} // verus!
