//! The logic of a check run: which files the report supports, which gate each
//! changed file belongs to, and how changed paths are quoted for Git.
use vstd::prelude::*;

use crate::config::{joined, ConfiguredGate};
use crate::error::CovgateError;
use crate::gate::{evaluate, is_rule_outcome, lemma_metric_index, metric_index};
use crate::metrics::{
    compute_overall_metric, includes_path, is_changed_metric, is_named_function_metric, is_overall_metric,
    metric_available, path_included, sum_covered, sum_total, totals_lookup, unavailable_message,
};
use crate::model::{
    metric_rank, rule_metric, ChangedFile, CheckResult, ComputedMetric, CoverageReport, FileTotals, FileTotalsList, GateEvaluation,
    GateRule, LineRange, MetricKind, RuleOutcome,
};
use crate::sorted::{key_views, lemma_key_views_sorted, lemma_lists_insert, lemma_path_order_total, lists_map, locate, path_order, copy_chars};
use crate::text::{chars_of, copy_string, push_chars, push_str, string_from_chars, path_lt};

verus! {

/// Some metric of the report records the path `p` with a nonzero total.
pub open spec fn is_supported(report: CoverageReport, p: Seq<char>) -> bool {
    exists|i: int, j: int|
        0 <= i < report.totals_by_file@.len() && 0 <= j < report.totals_by_file@[i].1@.len()
            && #[trigger] report.totals_by_file@[i].1@[j].0@ == p
            && report.totals_by_file@[i].1@[j].1.total > 0
}

/// `paths` lists, in strictly increasing path order, exactly the paths satisfying `pred`.
pub open spec fn lists_paths(paths: Seq<String>, pred: spec_fn(Seq<char>) -> bool) -> bool {
    &&& forall|a: int, b: int| 0 <= a < b < paths.len() ==> path_lt(#[trigger] paths[a]@, #[trigger] paths[b]@)
    &&& forall|a: int| 0 <= a < paths.len() ==> pred(#[trigger] paths[a]@)
    &&& forall|p: Seq<char>| #[trigger] pred(p) ==> exists|a: int| 0 <= a < paths.len() && #[trigger] paths[a]@ == p
}

pub open spec fn unit_views(n: nat) -> Seq<()> {
    Seq::new(n, |i: int| ())
}

/// A sorted set of paths: keys in path order.
pub open spec fn set_map(s: Set<Seq<char>>) -> Map<Seq<char>, ()> {
    Map::new(|k: Seq<char>| s.contains(k), |k: Seq<char>| ())
}

/// Inserts `k` into a sorted key list unless present.
fn insert_path(keys: &mut Vec<Vec<char>>, k: &[char], Ghost(s): Ghost<Set<Seq<char>>>)
    requires
        lists_map(key_views(old(keys)@), unit_views(old(keys)@.len()), set_map(s)),
    ensures
        lists_map(key_views(final(keys)@), unit_views(final(keys)@.len()), set_map(s.insert(k@))),
{
    let ghost ks = key_views(keys@);
    proof {
        lemma_key_views_sorted(keys@);
    }
    let (p, found) = locate(keys, k);
    if found {
        assert(ks[p as int] == k@);
        assert(set_map(s).contains_key(k@));
        assert(set_map(s.insert(k@)) =~= set_map(s));
    } else {
        proof {
            lemma_path_order_total();
            lemma_lists_insert(ks, unit_views(keys@.len()), set_map(s), path_order(), p as int, k@, ());
            assert(unit_views(keys@.len()).insert(p as int, ()) =~= unit_views(keys@.len() + 1));
            assert(set_map(s).insert(k@, ()) =~= set_map(s.insert(k@)));
        }
        let nk = copy_chars(k);
        keys.insert(p, nk);
        assert(key_views(keys@) =~= ks.insert(p as int, k@));
    }
}

/// Turns sorted key vectors into strings.
fn keys_to_strings(keys: &Vec<Vec<char>>) -> (r: Vec<String>)
    ensures
        r@.len() == keys@.len(),
        forall|i: int| 0 <= i < keys@.len() ==> #[trigger] r@[i]@ == keys@[i]@,
{
    let mut r: Vec<String> = Vec::new();
    let mut i: usize = 0;
    while i < keys.len()
        invariant
            i <= keys@.len(),
            r@.len() == i,
            forall|j: int| 0 <= j < i ==> #[trigger] r@[j]@ == keys@[j]@,
        decreases keys@.len() - i,
    {
        r.push(string_from_chars(keys[i].as_slice()));
        i = i + 1;
    }
    r
}

proof fn lemma_set_listing(keys: Seq<Vec<char>>, r: Seq<String>, s: Set<Seq<char>>, pred: spec_fn(Seq<char>) -> bool)
    requires
        lists_map(key_views(keys), unit_views(keys.len()), set_map(s)),
        r.len() == keys.len(),
        forall|i: int| 0 <= i < keys.len() ==> #[trigger] r[i]@ == keys[i]@,
        forall|p: Seq<char>| s.contains(p) <==> pred(p),
    ensures
        lists_paths(r, pred),
{
    assert forall|a: int, b: int| 0 <= a < b < r.len() implies path_lt(#[trigger] r[a]@, #[trigger] r[b]@) by {
        assert(key_views(keys)[a] == keys[a]@);
        assert(key_views(keys)[b] == keys[b]@);
        assert(path_order()(key_views(keys)[a], key_views(keys)[b]));
    }
    assert forall|a: int| 0 <= a < r.len() implies pred(#[trigger] r[a]@) by {
        assert(key_views(keys)[a] == keys[a]@);
        assert(set_map(s).contains_key(key_views(keys)[a]));
    }
    assert forall|p: Seq<char>| #[trigger] pred(p) implies exists|a: int| 0 <= a < r.len() && #[trigger] r[a]@ == p by {
        assert(set_map(s).contains_key(p));
        let a = choose|a: int| 0 <= a < key_views(keys).len() && #[trigger] key_views(keys)[a] == p;
        assert(r[a]@ == p);
    }
}

/// The files of the report that have coverage opportunities: every path with a
/// nonzero total under some metric, in path order.
pub fn supported_files(report: &CoverageReport) -> (r: Vec<String>)
    ensures
        lists_paths(r@, |p: Seq<char>| is_supported(*report, p)),
{
    let tb = &report.totals_by_file;
    let mut keys: Vec<Vec<char>> = Vec::new();
    let ghost mut s: Set<Seq<char>> = Set::empty();
    assert(key_views(keys@) =~= Seq::<Seq<char>>::empty());
    assert(set_map(s) =~= Map::<Seq<char>, ()>::empty());
    assert(unit_views(0) =~= Seq::<()>::empty());
    let mut i: usize = 0;
    while i < tb.len()
        invariant
            i <= tb@.len(),
            tb@ == report.totals_by_file@,
            lists_map(key_views(keys@), unit_views(keys@.len()), set_map(s)),
            forall|p: Seq<char>| s.contains(p) <==> exists|a: int, b: int|
                0 <= a < i && 0 <= b < tb@[a].1@.len() && #[trigger] tb@[a].1@[b].0@ == p
                    && tb@[a].1@[b].1.total > 0,
        decreases tb@.len() - i,
    {
        let files = &tb[i].1;
        let mut j: usize = 0;
        while j < files.len()
            invariant
                i < tb@.len(),
                tb@ == report.totals_by_file@,
                files@ == tb@[i as int].1@,
                j <= files@.len(),
                lists_map(key_views(keys@), unit_views(keys@.len()), set_map(s)),
                forall|p: Seq<char>| s.contains(p) <==> (exists|a: int, b: int|
                    0 <= a < i && 0 <= b < tb@[a].1@.len() && #[trigger] tb@[a].1@[b].0@ == p
                        && tb@[a].1@[b].1.total > 0) || (exists|b: int|
                    0 <= b < j && #[trigger] files@[b].0@ == p && files@[b].1.total > 0),
            decreases files@.len() - j,
        {
            if files[j].1.total > 0 {
                let pc = chars_of(files[j].0.as_str());
                insert_path(&mut keys, pc.as_slice(), Ghost(s));
                proof {
                    s = s.insert(pc@);
                }
            }
            j = j + 1;
        }
        proof {
            assert forall|p: Seq<char>| s.contains(p) <==> exists|a: int, b: int|
                0 <= a < i + 1 && 0 <= b < tb@[a].1@.len() && #[trigger] tb@[a].1@[b].0@ == p
                    && tb@[a].1@[b].1.total > 0 by {
                if s.contains(p) {
                    if !(exists|a: int, b: int|
                        0 <= a < i && 0 <= b < tb@[a].1@.len() && #[trigger] tb@[a].1@[b].0@ == p
                            && tb@[a].1@[b].1.total > 0) {
                        let b = choose|b: int| 0 <= b < files@.len() && #[trigger] files@[b].0@ == p && files@[b].1.total > 0;
                        assert(tb@[i as int].1@[b].0@ == p);
                    }
                } else {
                    if exists|a: int, b: int|
                        0 <= a < i + 1 && 0 <= b < tb@[a].1@.len() && #[trigger] tb@[a].1@[b].0@ == p
                            && tb@[a].1@[b].1.total > 0 {
                        let (a, b) = choose|a: int, b: int|
                            0 <= a < i + 1 && 0 <= b < tb@[a].1@.len() && #[trigger] tb@[a].1@[b].0@ == p
                                && tb@[a].1@[b].1.total > 0;
                        if a == i {
                            assert(files@[b].0@ == p);
                        }
                    }
                }
            }
        }
        i = i + 1;
    }
    let r = keys_to_strings(&keys);
    proof {
        assert forall|p: Seq<char>| s.contains(p) <==> is_supported(*report, p) by {}
        lemma_set_listing(keys@, r@, s, |p: Seq<char>| is_supported(*report, p));
    }
    r
}

/// A path may stand unquoted in a shell command: ASCII letters and digits,
/// `/`, `.`, `_` and `-` only.
pub open spec fn shell_safe_char(c: char) -> bool {
    ('a' <= c && c <= 'z') || ('A' <= c && c <= 'Z') || ('0' <= c && c <= '9') || c == '/' || c == '.'
        || c == '_' || c == '-'
}

/// `s` with each `'` replaced by `'\''`.
pub open spec fn escape_quotes(s: Seq<char>) -> Seq<char>
    decreases s.len(),
{
    if s.len() == 0 {
        seq![]
    } else {
        escape_quotes(s.drop_last()) + if s.last() == '\'' {
            seq!['\'', '\\', '\'', '\'']
        } else {
            seq![s.last()]
        }
    }
}

/// The shell form of a path: itself when every character is safe, else single-quoted.
pub open spec fn shell_escaped(s: Seq<char>) -> Seq<char> {
    if forall|i: int| 0 <= i < s.len() ==> shell_safe_char(#[trigger] s[i]) {
        s
    } else {
        seq!['\''] + escape_quotes(s) + seq!['\'']
    }
}

/// Quotes a path for the shell when it holds other than safe characters.
pub fn shell_escape_path(path: &str) -> (r: String)
    ensures
        r@ == shell_escaped(path@),
{
    let v = chars_of(path);
    let mut safe = true;
    let mut i: usize = 0;
    while i < v.len()
        invariant
            i <= v@.len(),
            safe == forall|j: int| 0 <= j < i ==> shell_safe_char(#[trigger] v@[j]),
        decreases v@.len() - i,
    {
        let c = v[i];
        let ok = ('a' <= c && c <= 'z') || ('A' <= c && c <= 'Z') || ('0' <= c && c <= '9') || c == '/'
            || c == '.' || c == '_' || c == '-';
        if !ok {
            safe = false;
        }
        i = i + 1;
    }
    if safe {
        return string_from_chars(v.as_slice());
    }
    let mut r = String::new();
    r.push('\'');
    let mut k: usize = 0;
    assert(v@.subrange(0, 0) =~= Seq::<char>::empty());
    while k < v.len()
        invariant
            k <= v@.len(),
            r@ == seq!['\''] + escape_quotes(v@.subrange(0, k as int)),
        decreases v@.len() - k,
    {
        assert(v@.subrange(0, k + 1).drop_last() =~= v@.subrange(0, k as int));
        if v[k] == '\'' {
            r.push('\'');
            r.push('\\');
            r.push('\'');
            r.push('\'');
        } else {
            r.push(v[k]);
        }
        k = k + 1;
        assert(r@ =~= seq!['\''] + escape_quotes(v@.subrange(0, k as int)));
    }
    r.push('\'');
    assert(v@.subrange(0, v@.len() as int) =~= v@);
    assert(r@ =~= shell_escaped(path@));
    r
}

/// `git add -N` followed by each path, shell-escaped and space-separated.
pub open spec fn git_add_command(paths: Seq<Seq<char>>) -> Seq<char>
    decreases paths.len(),
{
    if paths.len() == 0 {
        "git add -N"@
    } else {
        git_add_command(paths.drop_last()) + seq![' '] + shell_escaped(paths.last())
    }
}

/// The command that adds the given untracked paths to the index as intent-to-add.
pub fn format_git_add_command(paths: &[String]) -> (r: String)
    ensures
        r@ == git_add_command(crate::config::string_views(paths@)),
{
    let ghost views = crate::config::string_views(paths@);
    let mut command = String::new();
    push_str(&mut command, "git add -N");
    let mut i: usize = 0;
    assert(views.subrange(0, 0) =~= Seq::<Seq<char>>::empty());
    while i < paths.len()
        invariant
            i <= paths@.len(),
            views == crate::config::string_views(paths@),
            command@ == git_add_command(views.subrange(0, i as int)),
        decreases paths@.len() - i,
    {
        assert(views.subrange(0, i + 1).drop_last() =~= views.subrange(0, i as int));
        assert(views[i as int] == paths@[i as int]@);
        command.push(' ');
        let e = shell_escape_path(paths[i].as_str());
        push_str(&mut command, e.as_str());
        i = i + 1;
    }
    assert(views.subrange(0, views.len() as int) =~= views);
    command
}

/// The untracked paths, in order, that the coverage report covers.
pub open spec fn relevant_untracked(untracked: Seq<String>, coverage_files: Seq<String>) -> Seq<Seq<char>>
    decreases untracked.len(),
{
    if untracked.len() == 0 {
        seq![]
    } else {
        let prev = relevant_untracked(untracked.drop_last(), coverage_files);
        if path_included(coverage_files, untracked.last()@) {
            prev.push(untracked.last()@)
        } else {
            prev
        }
    }
}

/// The message for untracked files that the coverage report covers.
pub open spec fn untracked_message(paths: Seq<Seq<char>>) -> Seq<char> {
    "untracked files appear in the coverage report and are excluded from diff gating, which produces a false pass — add them with: `"@
        + git_add_command(paths) + "`"@
}

/// Fails when untracked files appear in the coverage report: a diff against a Git
/// base does not see them, so a gate would pass falsely.
pub fn check_untracked_coverage_files(untracked: &[String], coverage_files: &[String]) -> (r: Result<(), CovgateError>)
    ensures
        relevant_untracked(untracked@, coverage_files@).len() == 0 ==> r is Ok,
        relevant_untracked(untracked@, coverage_files@).len() > 0 ==> (r matches Err(e) && e.message@
            == untracked_message(relevant_untracked(untracked@, coverage_files@))),
{
    let mut relevant: Vec<String> = Vec::new();
    let mut i: usize = 0;
    assert(untracked@.subrange(0, 0) =~= Seq::<String>::empty());
    assert(crate::config::string_views(relevant@) =~= Seq::<Seq<char>>::empty());
    while i < untracked.len()
        invariant
            i <= untracked@.len(),
            crate::config::string_views(relevant@) == relevant_untracked(untracked@.subrange(0, i as int), coverage_files@),
        decreases untracked@.len() - i,
    {
        assert(untracked@.subrange(0, i + 1).drop_last() =~= untracked@.subrange(0, i as int));
        assert(untracked@.subrange(0, i + 1).last() == untracked@[i as int]);
        if includes_path(coverage_files, &untracked[i]) {
            let ghost before = crate::config::string_views(relevant@);
            relevant.push(untracked[i].clone());
            assert(crate::config::string_views(relevant@) =~= before.push(untracked@[i as int]@));
        }
        i = i + 1;
    }
    assert(untracked@.subrange(0, untracked@.len() as int) =~= untracked@);
    if relevant.len() == 0 {
        return Ok(());
    }
    let add_command = format_git_add_command(relevant.as_slice());
    let mut msg = String::new();
    push_str(&mut msg, "untracked files appear in the coverage report and are excluded from diff gating, which produces a false pass — add them with: `");
    push_str(&mut msg, add_command.as_str());
    push_str(&mut msg, "`");
    assert(msg@ =~= untracked_message(relevant_untracked(untracked@, coverage_files@)));
    Err(CovgateError { message: msg })
}

/// A metric with nothing changed: no opportunities, counted as fully covered.
pub fn empty_changed_metric(metric: MetricKind) -> (r: ComputedMetric)
    ensures
        r.metric == metric,
        r.covered == 0,
        r.total == 0,
        r.uncovered_changed_opportunities@.len() == 0,
        r.changed_totals_by_file@.len() == 0,
        r.totals_by_file@.len() == 0,
{
    ComputedMetric {
        metric,
        covered: 0,
        total: 0,
        uncovered_changed_opportunities: Vec::new(),
        changed_totals_by_file: Vec::new(),
        totals_by_file: Vec::new(),
    }
}


/// A changed file as plain values: its path and changed ranges.
pub open spec fn changed_view(c: ChangedFile) -> (Seq<char>, Seq<LineRange>) {
    (c.path@, c.changed_lines@)
}

/// The plain values of a sequence of changed files.
pub open spec fn changed_views(v: Seq<ChangedFile>) -> Seq<(Seq<char>, Seq<LineRange>)> {
    v.map_values(|c: ChangedFile| changed_view(c))
}

/// The indices, in order, of the gates among the first `n` that take `path`.
pub open spec fn admitting<P>(gates: Seq<ConfiguredGate<P>>, path: Seq<char>, n: nat) -> Seq<int>
    decreases n,
{
    if n == 0 {
        seq![]
    } else {
        let prev = admitting(gates, path, (n - 1) as nat);
        if gates[n - 1].admits(path) {
            prev.push(n - 1)
        } else {
            prev
        }
    }
}

/// The indices, in order, of the scoped gates among the first `n`.
pub open spec fn scoped_indices<P>(gates: Seq<ConfiguredGate<P>>, n: nat) -> Seq<int>
    decreases n,
{
    if n == 0 {
        seq![]
    } else {
        let prev = scoped_indices(gates, (n - 1) as nat);
        if gates[n - 1].is_fallback_spec() {
            prev
        } else {
            prev.push(n - 1)
        }
    }
}

/// The index of the first fallback gate among the first `n`.
pub open spec fn first_fallback<P>(gates: Seq<ConfiguredGate<P>>, n: nat) -> Option<int>
    decreases n,
{
    if n == 0 {
        None
    } else {
        match first_fallback(gates, (n - 1) as nat) {
            Some(i) => Some(i),
            None => if gates[n - 1].is_fallback_spec() {
                Some(n - 1)
            } else {
                None
            },
        }
    }
}

/// Which gate a changed file goes to: the one scoped gate that takes it, else the
/// fallback gate when no scoped gate takes it; none when it cannot be placed.
pub open spec fn target_gate<P>(gates: Seq<ConfiguredGate<P>>, path: Seq<char>) -> Option<int> {
    let a = admitting(gates, path, gates.len());
    if a.len() == 1 {
        Some(a[0])
    } else if a.len() == 0 {
        first_fallback(gates, gates.len())
    } else {
        None
    }
}

/// How a gate is named in messages.
pub open spec fn gate_name_text<P>(g: ConfiguredGate<P>) -> Seq<char> {
    match g.label {
        Some(l) => l@,
        None => "unnamed"@,
    }
}

/// The message for a changed file that cannot be placed in a gate.
pub open spec fn assign_message<P>(gates: Seq<ConfiguredGate<P>>, path: Seq<char>) -> Seq<char> {
    let a = admitting(gates, path, gates.len());
    if a.len() > 1 {
        "changed file `"@ + path + "` matches multiple scoped gates: "@ + joined(
            a.map_values(|i: int| gate_name_text(gates[i])),
            ", "@,
        )
    } else {
        "changed file `"@ + path
            + "` has supported coverage opportunities but does not match any scoped gate and no fallback gate is configured"@
    }
}

/// The message for the first supported changed file, in diff order, that cannot be
/// placed in a gate.
pub open spec fn assign_failure<P>(report: CoverageReport, diff: Seq<ChangedFile>, gates: Seq<ConfiguredGate<P>>) -> Option<
    Seq<char>,
>
    decreases diff.len(),
{
    if diff.len() == 0 {
        None
    } else {
        match assign_failure(report, diff.drop_last(), gates) {
            Some(m) => Some(m),
            None => {
                let p = diff.last().path@;
                if is_supported(report, p) && target_gate(gates, p) is None {
                    Some(assign_message(gates, p))
                } else {
                    None
                }
            },
        }
    }
}

/// The supported changed files, in diff order, that go to gate `g`.
pub open spec fn assigned_to<P>(
    report: CoverageReport,
    diff: Seq<ChangedFile>,
    gates: Seq<ConfiguredGate<P>>,
    g: int,
) -> Seq<(Seq<char>, Seq<LineRange>)>
    decreases diff.len(),
{
    if diff.len() == 0 {
        seq![]
    } else {
        let prev = assigned_to(report, diff.drop_last(), gates, g);
        let c = diff.last();
        if is_supported(report, c.path@) && target_gate(gates, c.path@) == Some(g) {
            prev.push(changed_view(c))
        } else {
            prev
        }
    }
}

/// The gates that take part in a run, by index: every scoped gate in order, then
/// the fallback gate if there is one.
pub open spec fn participants<P>(gates: Seq<ConfiguredGate<P>>) -> Seq<int> {
    let s = scoped_indices(gates, gates.len());
    match first_fallback(gates, gates.len()) {
        Some(f) => s.push(f),
        None => s,
    }
}

/// Some scoped gate has changed files assigned.
pub open spec fn any_scoped_assigned<P>(report: CoverageReport, diff: Seq<ChangedFile>, gates: Seq<ConfiguredGate<P>>) -> bool {
    let s = scoped_indices(gates, gates.len());
    exists|j: int| 0 <= j < s.len() && #[trigger] assigned_to(report, diff, gates, s[j]).len() > 0
}

/// The fallback gate measures every supported file: when there are no scoped
/// gates, or when nothing changed was assigned to any gate.
pub open spec fn fallback_takes_all<P>(report: CoverageReport, diff: Seq<ChangedFile>, gates: Seq<ConfiguredGate<P>>, g: int) -> bool {
    scoped_indices(gates, gates.len()).len() == 0 || (assigned_to(report, diff, gates, g).len() == 0
        && !any_scoped_assigned(report, diff, gates))
}

/// The path appears among the assigned files.
pub open spec fn assigned_path(files: Seq<(Seq<char>, Seq<LineRange>)>, p: Seq<char>) -> bool {
    exists|k: int| 0 <= k < files.len() && #[trigger] files[k].0 == p
}

/// What one gate is run on: the changed files assigned to it, and the paths
/// whose coverage it measures.
pub struct GateRunInput {
    pub gate: usize,
    pub changed_files: Vec<ChangedFile>,
    pub paths: Vec<String>,
    pub has_assigned_changes: bool,
}

/// `input` is what gate `g` is run on.
pub open spec fn is_gate_run_input<P>(
    report: CoverageReport,
    diff: Seq<ChangedFile>,
    gates: Seq<ConfiguredGate<P>>,
    g: int,
    input: GateRunInput,
) -> bool {
    let files = assigned_to(report, diff, gates, g);
    &&& input.gate == g
    &&& changed_views(input.changed_files@) == files
    &&& input.has_assigned_changes == (files.len() > 0)
    &&& if gates[g].is_fallback_spec() && fallback_takes_all(report, diff, gates, g) {
        lists_paths(input.paths@, |p: Seq<char>| is_supported(report, p))
    } else {
        lists_paths(input.paths@, |p: Seq<char>| assigned_path(files, p))
    }
}

proof fn lemma_admitting_bounds<P>(gates: Seq<ConfiguredGate<P>>, path: Seq<char>, n: nat)
    requires
        n <= gates.len(),
    ensures
        forall|j: int| 0 <= j < admitting(gates, path, n).len() ==> 0 <= #[trigger] admitting(gates, path, n)[j] < n
            && gates[admitting(gates, path, n)[j]].admits(path),
    decreases n,
{
    if n > 0 {
        let prev = admitting(gates, path, (n - 1) as nat);
        lemma_admitting_bounds(gates, path, (n - 1) as nat);
        assert forall|j: int| 0 <= j < admitting(gates, path, n).len() implies 0 <= #[trigger] admitting(
            gates,
            path,
            n,
        )[j] < n && gates[admitting(gates, path, n)[j]].admits(path) by {
            if j < prev.len() {
                assert(admitting(gates, path, n)[j] == prev[j]);
            }
        }
    }
}

proof fn lemma_scoped_bounds<P>(gates: Seq<ConfiguredGate<P>>, n: nat)
    requires
        n <= gates.len(),
    ensures
        forall|j: int| 0 <= j < scoped_indices(gates, n).len() ==> 0 <= #[trigger] scoped_indices(gates, n)[j] < n
            && !gates[scoped_indices(gates, n)[j]].is_fallback_spec(),
    decreases n,
{
    if n > 0 {
        let prev = scoped_indices(gates, (n - 1) as nat);
        lemma_scoped_bounds(gates, (n - 1) as nat);
        assert forall|j: int| 0 <= j < scoped_indices(gates, n).len() implies 0 <= #[trigger] scoped_indices(
            gates,
            n,
        )[j] < n && !gates[scoped_indices(gates, n)[j]].is_fallback_spec() by {
            if j < prev.len() {
                assert(scoped_indices(gates, n)[j] == prev[j]);
            }
        }
    }
}

proof fn lemma_first_fallback<P>(gates: Seq<ConfiguredGate<P>>, n: nat)
    requires
        n <= gates.len(),
    ensures
        first_fallback(gates, n) matches Some(f) ==> 0 <= f < n && gates[f].is_fallback_spec(),
    decreases n,
{
    if n > 0 {
        lemma_first_fallback(gates, (n - 1) as nat);
    }
}

proof fn lemma_admitting_none<P>(gates: Seq<ConfiguredGate<P>>, path: Seq<char>, n: nat)
    requires
        n <= gates.len(),
        admitting(gates, path, n).len() == 0,
    ensures
        forall|j: int| 0 <= j < n ==> !(#[trigger] gates[j]).admits(path),
    decreases n,
{
    if n > 0 {
        if gates[n - 1].admits(path) {
            assert(admitting(gates, path, n).len() > 0);
        }
        lemma_admitting_none(gates, path, (n - 1) as nat);
    }
}

proof fn lemma_scoped_contains<P>(gates: Seq<ConfiguredGate<P>>, n: nat, i: int)
    requires
        n <= gates.len(),
        0 <= i < n,
        !gates[i].is_fallback_spec(),
    ensures
        scoped_indices(gates, n).contains(i),
    decreases n,
{
    let s = scoped_indices(gates, n);
    if i == n - 1 {
        assert(s[s.len() - 1] == i);
    } else {
        let prev = scoped_indices(gates, (n - 1) as nat);
        lemma_scoped_contains(gates, (n - 1) as nat, i);
        let j = choose|j: int| 0 <= j < prev.len() && prev[j] == i;
        assert(s[j] == prev[j]);
    }
}

proof fn lemma_no_failure_targets<P>(report: CoverageReport, diff: Seq<ChangedFile>, gates: Seq<ConfiguredGate<P>>, k: int)
    requires
        assign_failure(report, diff, gates) is None,
        0 <= k < diff.len(),
        is_supported(report, diff[k].path@),
    ensures
        target_gate(gates, diff[k].path@) is Some,
    decreases diff.len(),
{
    if k < diff.len() - 1 {
        assert(diff.drop_last()[k] == diff[k]);
        lemma_no_failure_targets(report, diff.drop_last(), gates, k);
    }
}

proof fn lemma_assigned_contains<P>(report: CoverageReport, diff: Seq<ChangedFile>, gates: Seq<ConfiguredGate<P>>, k: int)
    requires
        0 <= k < diff.len(),
        is_supported(report, diff[k].path@),
        target_gate(gates, diff[k].path@) is Some,
    ensures
        assigned_to(report, diff, gates, target_gate(gates, diff[k].path@)->Some_0).contains(changed_view(diff[k])),
    decreases diff.len(),
{
    let g = target_gate(gates, diff[k].path@)->Some_0;
    let a = assigned_to(report, diff, gates, g);
    if k == diff.len() - 1 {
        assert(a[a.len() - 1] == changed_view(diff[k]));
    } else {
        let prev = assigned_to(report, diff.drop_last(), gates, g);
        assert(diff.drop_last()[k] == diff[k]);
        lemma_assigned_contains(report, diff.drop_last(), gates, k);
        let j = choose|j: int| 0 <= j < prev.len() && prev[j] == changed_view(diff[k]);
        assert(a[j] == prev[j]);
    }
}

proof fn lemma_assigned_targets<P>(report: CoverageReport, diff: Seq<ChangedFile>, gates: Seq<ConfiguredGate<P>>, h: int)
    ensures
        forall|i: int|
            0 <= i < assigned_to(report, diff, gates, h).len() ==> target_gate(
                gates,
                (#[trigger] assigned_to(report, diff, gates, h)[i]).0,
            ) == Some(h),
    decreases diff.len(),
{
    if diff.len() > 0 {
        let prev = assigned_to(report, diff.drop_last(), gates, h);
        lemma_assigned_targets(report, diff.drop_last(), gates, h);
        let a = assigned_to(report, diff, gates, h);
        assert forall|i: int| 0 <= i < a.len() implies target_gate(gates, (#[trigger] a[i]).0) == Some(h) by {
            if i < prev.len() {
                assert(a[i] == prev[i]);
            }
        }
    }
}

/// When every supported changed file can be placed, each one goes to exactly one
/// gate, which takes part in the run: the one scoped gate whose patterns take it,
/// or, when no scoped gate takes it, the fallback gate. No other gate is handed
/// that path.
pub proof fn lemma_assignment_partitions<P>(
    report: CoverageReport,
    diff: Seq<ChangedFile>,
    gates: Seq<ConfiguredGate<P>>,
    k: int,
)
    requires
        assign_failure(report, diff, gates) is None,
        0 <= k < diff.len(),
        is_supported(report, diff[k].path@),
    ensures
        target_gate(gates, diff[k].path@) matches Some(g) && {
            &&& 0 <= g < gates.len()
            &&& participants(gates).contains(g)
            &&& assigned_to(report, diff, gates, g).contains(changed_view(diff[k]))
            &&& (gates[g].is_fallback_spec() ==> forall|j: int|
                0 <= j < gates.len() ==> !(#[trigger] gates[j]).admits(diff[k].path@))
            &&& (!gates[g].is_fallback_spec() ==> gates[g].admits(diff[k].path@))
            &&& forall|h: int, i: int|
                h != g && 0 <= i < assigned_to(report, diff, gates, h).len() ==> (#[trigger] assigned_to(
                    report,
                    diff,
                    gates,
                    h,
                )[i]).0 != diff[k].path@
        },
{
    let p = diff[k].path@;
    let n = gates.len();
    lemma_no_failure_targets(report, diff, gates, k);
    let g = target_gate(gates, p)->Some_0;
    let a = admitting(gates, p, n);
    lemma_admitting_bounds(gates, p, n);
    lemma_first_fallback(gates, n);
    lemma_scoped_bounds(gates, n);
    if a.len() == 1 {
        assert(g == a[0]);
        assert(gates[g].admits(p));
        lemma_scoped_contains(gates, n, g);
        let s = scoped_indices(gates, n);
        let j = choose|j: int| 0 <= j < s.len() && s[j] == g;
        assert(participants(gates)[j] == g);
    } else {
        lemma_admitting_none(gates, p, n);
        let ps = participants(gates);
        assert(ps[ps.len() - 1] == g);
    }
    lemma_assigned_contains(report, diff, gates, k);
    assert forall|h: int, i: int|
        h != g && 0 <= i < assigned_to(report, diff, gates, h).len() implies (#[trigger] assigned_to(
        report,
        diff,
        gates,
        h,
    )[i]).0 != p by {
        lemma_assigned_targets(report, diff, gates, h);
    }
}

/// The views of gate indices.
pub open spec fn index_views(v: Seq<usize>) -> Seq<int> {
    v.map_values(|x: usize| x as int)
}

/// The label text of each gate in `idx`.
fn gate_names<P>(gates: &[ConfiguredGate<P>], idx: &Vec<usize>) -> (r: Vec<String>)
    requires
        forall|j: int| 0 <= j < idx@.len() ==> #[trigger] idx@[j] < gates@.len(),
    ensures
        crate::config::string_views(r@) == index_views(idx@).map_values(|i: int| gate_name_text(gates@[i])),
{
    let mut r: Vec<String> = Vec::new();
    let mut j: usize = 0;
    while j < idx.len()
        invariant
            j <= idx@.len(),
            forall|t: int| 0 <= t < idx@.len() ==> #[trigger] idx@[t] < gates@.len(),
            r@.len() == j,
            forall|t: int| 0 <= t < j ==> #[trigger] r@[t]@ == gate_name_text(gates@[idx@[t] as int]),
        decreases idx@.len() - j,
    {
        let g = &gates[idx[j]];
        let name = match &g.label {
            Some(l) => l.clone(),
            None => String::from_str("unnamed"),
        };
        proof {
            reveal_strlit("unnamed");
        }
        r.push(name);
        j = j + 1;
    }
    assert(crate::config::string_views(r@) =~= index_views(idx@).map_values(|i: int| gate_name_text(gates@[i])));
    r
}

/// The gates that take `path`, by index.
fn admitting_gates<P>(gates: &[ConfiguredGate<P>], path: &String) -> (r: Vec<usize>)
    ensures
        index_views(r@) == admitting(gates@, path@, gates@.len()),
        forall|j: int| 0 <= j < r@.len() ==> #[trigger] r@[j] < gates@.len(),
{
    let mut r: Vec<usize> = Vec::new();
    let mut i: usize = 0;
    while i < gates.len()
        invariant
            i <= gates@.len(),
            index_views(r@) == admitting(gates@, path@, i as nat),
            forall|j: int| 0 <= j < r@.len() ==> #[trigger] r@[j] < i,
        decreases gates@.len() - i,
    {
        if gates[i].matches(path.as_str()) {
            r.push(i);
            assert(index_views(r@) =~= admitting(gates@, path@, i as nat).push(i as int));
        }
        i = i + 1;
    }
    r
}

/// The scoped gates by index, and the first fallback gate.
fn gate_layout<P>(gates: &[ConfiguredGate<P>]) -> (r: (Vec<usize>, Option<usize>))
    ensures
        index_views(r.0@) == scoped_indices(gates@, gates@.len()),
        forall|j: int| 0 <= j < r.0@.len() ==> #[trigger] r.0@[j] < gates@.len(),
        match r.1 {
            Some(f) => first_fallback(gates@, gates@.len()) == Some(f as int),
            None => first_fallback(gates@, gates@.len()) is None,
        },
{
    let mut scoped: Vec<usize> = Vec::new();
    let mut fallback: Option<usize> = None;
    let mut i: usize = 0;
    while i < gates.len()
        invariant
            i <= gates@.len(),
            index_views(scoped@) == scoped_indices(gates@, i as nat),
            forall|j: int| 0 <= j < scoped@.len() ==> #[trigger] scoped@[j] < i,
            match fallback {
                Some(f) => first_fallback(gates@, i as nat) == Some(f as int),
                None => first_fallback(gates@, i as nat) is None,
            },
        decreases gates@.len() - i,
    {
        if gates[i].is_fallback() {
            if fallback.is_none() {
                fallback = Some(i);
            }
        } else {
            scoped.push(i);
            assert(index_views(scoped@) =~= scoped_indices(gates@, i as nat).push(i as int));
        }
        i = i + 1;
    }
    (scoped, fallback)
}

/// Gate index of each changed file; `None` for files without coverage opportunities.
pub open spec fn targets_follow<P>(
    report: CoverageReport,
    diff: Seq<ChangedFile>,
    gates: Seq<ConfiguredGate<P>>,
    targets: Seq<Option<usize>>,
) -> bool {
    &&& targets.len() == diff.len()
    &&& forall|k: int| 0 <= k < diff.len() ==> (match #[trigger] targets[k] {
        Some(t) => is_supported(report, diff[k].path@) && target_gate(gates, diff[k].path@) == Some(t as int)
            && t < gates.len(),
        None => !is_supported(report, diff[k].path@),
    })
}

/// The changed files with target `g`, and the set of their paths.
fn collect_assigned<P>(
    report: &CoverageReport,
    diff: &[ChangedFile],
    gates: &[ConfiguredGate<P>],
    targets: &Vec<Option<usize>>,
    g: usize,
) -> (r: (Vec<ChangedFile>, Vec<String>))
    requires
        targets_follow(*report, diff@, gates@, targets@),
    ensures
        changed_views(r.0@) == assigned_to(*report, diff@, gates@, g as int),
        lists_paths(r.1@, |p: Seq<char>| assigned_path(assigned_to(*report, diff@, gates@, g as int), p)),
{
    let mut files: Vec<ChangedFile> = Vec::new();
    let mut keys: Vec<Vec<char>> = Vec::new();
    let ghost mut s: Set<Seq<char>> = Set::empty();
    assert(key_views(keys@) =~= Seq::<Seq<char>>::empty());
    assert(set_map(s) =~= Map::<Seq<char>, ()>::empty());
    assert(unit_views(0) =~= Seq::<()>::empty());
    assert(diff@.subrange(0, 0) =~= Seq::<ChangedFile>::empty());
    let mut k: usize = 0;
    while k < diff.len()
        invariant
            k <= diff@.len(),
            targets_follow(*report, diff@, gates@, targets@),
            changed_views(files@) == assigned_to(*report, diff@.subrange(0, k as int), gates@, g as int),
            lists_map(key_views(keys@), unit_views(keys@.len()), set_map(s)),
            forall|p: Seq<char>| s.contains(p) <==> assigned_path(changed_views(files@), p),
        decreases diff@.len() - k,
    {
        let ghost before = changed_views(files@);
        proof {
            assert(diff@.subrange(0, k + 1).drop_last() =~= diff@.subrange(0, k as int));
            assert(diff@.subrange(0, k + 1).last() == diff@[k as int]);
        }
        let hit = match targets[k] {
            Some(t) => t == g,
            None => false,
        };
        if hit {
            let c = diff[k].clone();
            let pc = chars_of(c.path.as_str());
            insert_path(&mut keys, pc.as_slice(), Ghost(s));
            files.push(c);
            proof {
                s = s.insert(pc@);
                assert(changed_views(files@) =~= before.push(changed_view(diff@[k as int])));
                assert forall|p: Seq<char>| s.contains(p) <==> assigned_path(changed_views(files@), p) by {
                    if s.contains(p) && p != pc@ {
                        let w = choose|w: int| 0 <= w < before.len() && #[trigger] before[w].0 == p;
                        assert(changed_views(files@)[w].0 == p);
                    }
                    if assigned_path(changed_views(files@), p) {
                        let w = choose|w: int| 0 <= w < changed_views(files@).len() && #[trigger] changed_views(files@)[w].0 == p;
                        if w < before.len() {
                            assert(before[w].0 == p);
                        }
                    }
                    if p == pc@ {
                        assert(changed_views(files@)[before.len() as int].0 == p);
                    }
                }
            }
        }
        k = k + 1;
    }
    assert(diff@.subrange(0, diff@.len() as int) =~= diff@);
    let paths = keys_to_strings(&keys);
    proof {
        lemma_set_listing(keys@, paths@, s, |p: Seq<char>| assigned_path(assigned_to(*report, diff@, gates@, g as int), p));
    }
    (files, paths)
}

/// A copy of a list of strings.
fn copy_strings(v: &Vec<String>) -> (r: Vec<String>)
    ensures
        r@.len() == v@.len(),
        forall|i: int| 0 <= i < v@.len() ==> #[trigger] r@[i]@ == v@[i]@,
{
    let mut r: Vec<String> = Vec::new();
    let mut i: usize = 0;
    while i < v.len()
        invariant
            i <= v@.len(),
            r@.len() == i,
            forall|j: int| 0 <= j < i ==> #[trigger] r@[j]@ == v@[j]@,
        decreases v@.len() - i,
    {
        r.push(copy_string(&v[i]));
        i = i + 1;
    }
    r
}

proof fn lemma_lists_paths_copy(a: Seq<String>, b: Seq<String>, pred: spec_fn(Seq<char>) -> bool)
    requires
        lists_paths(a, pred),
        b.len() == a.len(),
        forall|i: int| 0 <= i < a.len() ==> #[trigger] b[i]@ == a[i]@,
    ensures
        lists_paths(b, pred),
{
    assert forall|x: int, y: int| 0 <= x < y < b.len() implies path_lt(#[trigger] b[x]@, #[trigger] b[y]@) by {
        assert(path_lt(a[x]@, a[y]@));
    }
    assert forall|x: int| 0 <= x < b.len() implies pred(#[trigger] b[x]@) by {
        assert(pred(a[x]@));
    }
    assert forall|p: Seq<char>| #[trigger] pred(p) implies exists|x: int| 0 <= x < b.len() && #[trigger] b[x]@ == p by {
        let x = choose|x: int| 0 <= x < a.len() && #[trigger] a[x]@ == p;
        assert(b[x]@ == p);
    }
}


proof fn lemma_assign_failure_stuck<P>(report: CoverageReport, diff: Seq<ChangedFile>, gates: Seq<ConfiguredGate<P>>, i: int)
    requires
        0 <= i <= diff.len(),
        assign_failure(report, diff.subrange(0, i), gates) is Some,
    ensures
        assign_failure(report, diff, gates) == assign_failure(report, diff.subrange(0, i), gates),
    decreases diff.len() - i,
{
    if i < diff.len() {
        assert(diff.subrange(0, i + 1).drop_last() =~= diff.subrange(0, i));
        lemma_assign_failure_stuck(report, diff, gates, i + 1);
    } else {
        assert(diff.subrange(0, i) =~= diff);
    }
}

proof fn lemma_supported_listing(report: CoverageReport, supported: Seq<String>, p: Seq<char>)
    requires
        lists_paths(supported, |q: Seq<char>| is_supported(report, q)),
    ensures
        path_included(supported, p) == is_supported(report, p),
{
    let pred = |q: Seq<char>| is_supported(report, q);
    if path_included(supported, p) {
        let a = choose|a: int| 0 <= a < supported.len() && #[trigger] supported[a]@ == p;
        assert(pred(supported[a]@));
    }
    if is_supported(report, p) {
        assert(pred(p));
    }
}

/// The error for a changed file that cannot be placed in a gate.
fn assign_error<P>(gates: &[ConfiguredGate<P>], path: &String, matching: &Vec<usize>) -> (e: CovgateError)
    requires
        index_views(matching@) == admitting(gates@, path@, gates@.len()),
        forall|j: int| 0 <= j < matching@.len() ==> #[trigger] matching@[j] < gates@.len(),
    ensures
        e.message@ == assign_message(gates@, path@),
{
    let mut msg = String::new();
    push_str(&mut msg, "changed file `");
    push_str(&mut msg, path.as_str());
    if matching.len() > 1 {
        let names = gate_names(gates, matching);
        let listed = crate::config::join_strings(names.as_slice(), ", ");
        push_str(&mut msg, "` matches multiple scoped gates: ");
        push_str(&mut msg, listed.as_str());
    } else {
        push_str(
            &mut msg,
            "` has supported coverage opportunities but does not match any scoped gate and no fallback gate is configured",
        );
    }
    assert(msg@ =~= assign_message(gates@, path@));
    CovgateError { message: msg }
}

/// Places each changed file that has coverage opportunities in a gate: the one
/// scoped gate whose patterns take it, else the fallback gate. Fails at the first
/// such file, in diff order, that several scoped gates take, or that none takes
/// while there is no fallback gate.
///
/// The result lists every scoped gate in order, then the fallback gate if there
/// is one, each with the changed files assigned to it and the paths it measures:
/// the paths of its files, or, for a fallback gate with no scoped gates beside it
/// or with nothing changed assigned anywhere, every supported file.
pub fn assign_changed_files<P>(
    report: &CoverageReport,
    diff: &[ChangedFile],
    gates: &[ConfiguredGate<P>],
) -> (r: Result<Vec<GateRunInput>, CovgateError>)
    ensures
        assign_failure(*report, diff@, gates@) matches Some(m) ==> (r matches Err(e) && e.message@ == m),
        assign_failure(*report, diff@, gates@) is None ==> (r matches Ok(inputs) && inputs@.len() == participants(
            gates@,
        ).len() && forall|j: int|
            0 <= j < inputs@.len() ==> is_gate_run_input(
                *report,
                diff@,
                gates@,
                participants(gates@)[j],
                #[trigger] inputs@[j],
            )),
{
    let supported = supported_files(report);
    let (scoped, fallback) = gate_layout(gates);
    proof {
        lemma_scoped_bounds(gates@, gates@.len());
        lemma_first_fallback(gates@, gates@.len());
    }
    let mut targets: Vec<Option<usize>> = Vec::new();
    let mut k: usize = 0;
    assert(diff@.subrange(0, 0) =~= Seq::<ChangedFile>::empty());
    while k < diff.len()
        invariant
            k <= diff@.len(),
            lists_paths(supported@, |p: Seq<char>| is_supported(*report, p)),
            match fallback {
                Some(f) => first_fallback(gates@, gates@.len()) == Some(f as int),
                None => first_fallback(gates@, gates@.len()) is None,
            },
            first_fallback(gates@, gates@.len()) matches Some(f) ==> 0 <= f < gates@.len(),
            assign_failure(*report, diff@.subrange(0, k as int), gates@) is None,
            targets@.len() == k,
            forall|t: int| 0 <= t < k ==> (match #[trigger] targets@[t] {
                Some(g) => is_supported(*report, diff@[t].path@) && target_gate(gates@, diff@[t].path@) == Some(
                    g as int,
                ) && g < gates@.len(),
                None => !is_supported(*report, diff@[t].path@),
            }),
        decreases diff@.len() - k,
    {
        proof {
            assert(diff@.subrange(0, k + 1).drop_last() =~= diff@.subrange(0, k as int));
            assert(diff@.subrange(0, k + 1).last() == diff@[k as int]);
        }
        let path = &diff[k].path;
        proof {
            lemma_supported_listing(*report, supported@, path@);
        }
        if !includes_path(supported.as_slice(), path) {
            targets.push(None);
        } else {
            let matching = admitting_gates(gates, path);
            proof {
                lemma_admitting_bounds(gates@, path@, gates@.len());
            }
            if matching.len() == 1 {
                targets.push(Some(matching[0]));
            } else if matching.len() == 0 && fallback.is_some() {
                let f = match fallback {
                    Some(f) => f,
                    None => 0,
                };
                targets.push(Some(f));
            } else {
                let e = assign_error(gates, path, &matching);
                proof {
                    assert(assign_failure(*report, diff@.subrange(0, k + 1), gates@) == Some(e.message@));
                    lemma_assign_failure_stuck(*report, diff@, gates@, k + 1);
                }
                return Err(e);
            }
        }
        k = k + 1;
    }
    assert(diff@.subrange(0, diff@.len() as int) =~= diff@);
    assert(targets_follow(*report, diff@, gates@, targets@));
    let ghost sc = scoped_indices(gates@, gates@.len());
    let mut inputs: Vec<GateRunInput> = Vec::new();
    let mut any_scoped = false;
    let mut j: usize = 0;
    while j < scoped.len()
        invariant
            j <= scoped@.len(),
            index_views(scoped@) == sc,
            sc == scoped_indices(gates@, gates@.len()),
            forall|t: int| 0 <= t < scoped@.len() ==> #[trigger] scoped@[t] < gates@.len(),
            forall|t: int| 0 <= t < sc.len() ==> 0 <= #[trigger] sc[t] < gates@.len() && !gates@[sc[t]].is_fallback_spec(),
            targets_follow(*report, diff@, gates@, targets@),
            inputs@.len() == j,
            forall|t: int| 0 <= t < j ==> is_gate_run_input(*report, diff@, gates@, sc[t], #[trigger] inputs@[t]),
            any_scoped == exists|t: int| 0 <= t < j && #[trigger] assigned_to(*report, diff@, gates@, sc[t]).len() > 0,
        decreases scoped@.len() - j,
    {
        let g = scoped[j];
        assert(sc[j as int] == g as int);
        let (files, paths) = collect_assigned(report, diff, gates, &targets, g);
        let has_files = files.len() > 0;
        assert(changed_views(files@).len() == files@.len());
        if has_files {
            any_scoped = true;
        }
        let ghost before = inputs@;
        inputs.push(GateRunInput { gate: g, changed_files: files, paths, has_assigned_changes: has_files });
        proof {
            assert forall|t: int| 0 <= t < j + 1 implies is_gate_run_input(*report, diff@, gates@, sc[t], #[trigger] inputs@[t]) by {
                if t < j {
                    assert(inputs@[t] == before[t]);
                }
            }
            if has_files {
                assert(assigned_to(*report, diff@, gates@, sc[j as int]).len() > 0);
            }
        }
        j = j + 1;
    }
    match fallback {
        Some(f) => {
            let (files, paths) = collect_assigned(report, diff, gates, &targets, f);
            let has_files = files.len() > 0;
            assert(changed_views(files@).len() == files@.len());
            let takes_all = scoped.len() == 0 || (!has_files && !any_scoped);
            let measured = if takes_all {
                let c = copy_strings(&supported);
                proof {
                    lemma_lists_paths_copy(supported@, c@, |p: Seq<char>| is_supported(*report, p));
                }
                c
            } else {
                paths
            };
            let ghost before = inputs@;
            inputs.push(GateRunInput { gate: f, changed_files: files, paths: measured, has_assigned_changes: has_files });
            proof {
                assert(participants(gates@) == sc.push(f as int));
                assert(fallback_takes_all(*report, diff@, gates@, f as int) == takes_all);
                assert forall|t: int| 0 <= t < inputs@.len() implies is_gate_run_input(
                    *report,
                    diff@,
                    gates@,
                    participants(gates@)[t],
                    #[trigger] inputs@[t],
                ) by {
                    if t < before.len() {
                        assert(inputs@[t] == before[t]);
                        assert(participants(gates@)[t] == sc[t]);
                    }
                }
            }
        },
        None => {
            assert(participants(gates@) == sc);
        },
    }
    Ok(inputs)
}


/// Every metric kind, in declaration order (which is also their sort order).
pub open spec fn all_metric_kinds() -> Seq<MetricKind> {
    seq![MetricKind::Region, MetricKind::Line, MetricKind::Branch, MetricKind::Function, MetricKind::NamedFunction]
}

/// The kinds among the first `n` metric kinds that `keep` accepts, in order.
pub open spec fn kinds_where(keep: spec_fn(MetricKind) -> bool, n: nat) -> Seq<MetricKind>
    decreases n,
{
    if n == 0 {
        seq![]
    } else {
        let prev = kinds_where(keep, (n - 1) as nat);
        let m = all_metric_kinds()[n - 1];
        if keep(m) {
            prev.push(m)
        } else {
            prev
        }
    }
}

/// Some rule is about metric `m`.
pub open spec fn rules_ask_for<P>(rules: Seq<GateRule<P>>, m: MetricKind) -> bool {
    exists|i: int| 0 <= i < rules.len() && rule_metric(#[trigger] rules[i]) == m
}

/// The metrics that a gate's rules ask for, each once, in sort order.
pub open spec fn requested_kinds<P>(rules: Seq<GateRule<P>>) -> Seq<MetricKind> {
    kinds_where(|m: MetricKind| rules_ask_for(rules, m), 5)
}

/// The metrics that the report carries, in sort order.
pub open spec fn available_kinds(report: CoverageReport) -> Seq<MetricKind> {
    kinds_where(|m: MetricKind| metric_available(report, m), 5)
}

proof fn lemma_kinds_where(keep: spec_fn(MetricKind) -> bool, n: nat)
    requires
        n <= 5,
    ensures
        forall|j: int| 0 <= j < kinds_where(keep, n).len() ==> keep(#[trigger] kinds_where(keep, n)[j]),
        forall|a: int, b: int| 0 <= a < b < kinds_where(keep, n).len() ==> #[trigger] kinds_where(keep, n)[a] != #[trigger] kinds_where(keep, n)[b],
        forall|j: int| 0 <= j < kinds_where(keep, n).len() ==> metric_rank(#[trigger] kinds_where(keep, n)[j]) < n,
        forall|m: MetricKind| metric_rank(m) < n && keep(m) ==> exists|j: int| 0 <= j < kinds_where(keep, n).len() && #[trigger] kinds_where(keep, n)[j] == m,
    decreases n,
{
    if n > 0 {
        let prev = kinds_where(keep, (n - 1) as nat);
        lemma_kinds_where(keep, (n - 1) as nat);
        let cur = kinds_where(keep, n);
        let m = all_metric_kinds()[n - 1];
        assert(metric_rank(m) == n - 1);
        assert forall|j: int| 0 <= j < cur.len() implies keep(#[trigger] cur[j]) && metric_rank(cur[j]) < n by {
            if j < prev.len() {
                assert(cur[j] == prev[j]);
            }
        }
        assert forall|a: int, b: int| 0 <= a < b < cur.len() implies #[trigger] cur[a] != #[trigger] cur[b] by {
            if b < prev.len() {
                assert(cur[a] == prev[a] && cur[b] == prev[b]);
            } else {
                assert(cur[a] == prev[a]);
                assert(metric_rank(prev[a]) < n - 1);
            }
        }
        assert forall|x: MetricKind| metric_rank(x) < n && keep(x) implies exists|j: int| 0 <= j < cur.len() && #[trigger] cur[j] == x by {
            if metric_rank(x) < n - 1 {
                let j = choose|j: int| 0 <= j < prev.len() && #[trigger] prev[j] == x;
                assert(cur[j] == x);
            } else {
                assert(x == m);
                assert(cur[prev.len() as int] == x);
            }
        }
    }
}

/// Every metric kind, in order.
fn metric_kinds() -> (v: Vec<MetricKind>)
    ensures
        v@ == all_metric_kinds(),
{
    let v = vec![MetricKind::Region, MetricKind::Line, MetricKind::Branch, MetricKind::Function, MetricKind::NamedFunction];
    assert(v@ =~= all_metric_kinds());
    v
}

/// The metrics a gate's rules ask for, each once, in sort order.
pub fn requested_metric_kinds<P: Copy>(rules: &[GateRule<P>]) -> (r: Vec<MetricKind>)
    ensures
        r@ == requested_kinds(rules@),
{
    let ghost keep = |m: MetricKind| rules_ask_for(rules@, m);
    let kinds = metric_kinds();
    let mut r: Vec<MetricKind> = Vec::new();
    let mut i: usize = 0;
    while i < kinds.len()
        invariant
            kinds@ == all_metric_kinds(),
            i <= 5,
            keep == (|m: MetricKind| rules_ask_for(rules@, m)),
            r@ == kinds_where(keep, i as nat),
        decreases 5 - i,
    {
        let m = kinds[i];
        let mut found = false;
        let mut j: usize = 0;
        while j < rules.len()
            invariant
                j <= rules@.len(),
                found == exists|t: int| 0 <= t < j && rule_metric(#[trigger] rules@[t]) == m,
            decreases rules@.len() - j,
        {
            if rules[j].metric() == m {
                found = true;
            }
            j = j + 1;
        }
        if found {
            r.push(m);
        }
        i = i + 1;
    }
    r
}

/// The metrics the report carries, in sort order.
fn available_metric_kinds(report: &CoverageReport) -> (r: Vec<MetricKind>)
    ensures
        r@ == available_kinds(*report),
{
    let ghost keep = |m: MetricKind| metric_available(*report, m);
    let kinds = metric_kinds();
    let mut r: Vec<MetricKind> = Vec::new();
    let mut i: usize = 0;
    while i < kinds.len()
        invariant
            kinds@ == all_metric_kinds(),
            i <= 5,
            keep == (|m: MetricKind| metric_available(*report, m)),
            r@ == kinds_where(keep, i as nat),
        decreases 5 - i,
    {
        let m = kinds[i];
        if crate::metrics::is_metric_available(report, m) {
            r.push(m);
        }
        i = i + 1;
    }
    r
}

/// `cm` is the changed metric `m` of `diff` within `paths`.
pub open spec fn is_changed_metric_of(
    report: CoverageReport,
    diff: Seq<ChangedFile>,
    paths: Seq<String>,
    m: MetricKind,
    cm: ComputedMetric,
) -> bool {
    if m == MetricKind::NamedFunction {
        is_named_function_metric(report, diff, paths, cm)
    } else {
        is_changed_metric(report, diff, paths, m, cm)
    }
}

/// `cm` is metric `m` with nothing in it.
pub open spec fn is_empty_metric(m: MetricKind, cm: ComputedMetric) -> bool {
    &&& cm.metric == m
    &&& cm.covered == 0
    &&& cm.total == 0
    &&& cm.uncovered_changed_opportunities@.len() == 0
    &&& cm.changed_totals_by_file@.len() == 0
    &&& cm.totals_by_file@.len() == 0
}

/// `cm` is what a gate run on `input` measures for metric `m`: the changed metric
/// when the report carries `m`; otherwise, for a gate with nothing assigned, the
/// empty metric.
pub open spec fn is_gate_metric(report: CoverageReport, input: GateRunInput, m: MetricKind, cm: ComputedMetric) -> bool {
    if metric_available(report, m) {
        is_changed_metric_of(report, input.changed_files@, input.paths@, m, cm)
    } else {
        !input.has_assigned_changes && is_empty_metric(m, cm)
    }
}

/// The first of `kinds` that the report does not carry.
pub open spec fn first_missing(report: CoverageReport, kinds: Seq<MetricKind>) -> Option<MetricKind>
    decreases kinds.len(),
{
    if kinds.len() == 0 {
        None
    } else {
        match first_missing(report, kinds.drop_last()) {
            Some(m) => Some(m),
            None => if !metric_available(report, kinds.last()) {
                Some(kinds.last())
            } else {
                None
            },
        }
    }
}

proof fn lemma_first_missing_stuck(report: CoverageReport, kinds: Seq<MetricKind>, i: int)
    requires
        0 <= i <= kinds.len(),
        first_missing(report, kinds.subrange(0, i)) is Some,
    ensures
        first_missing(report, kinds) == first_missing(report, kinds.subrange(0, i)),
    decreases kinds.len() - i,
{
    if i < kinds.len() {
        assert(kinds.subrange(0, i + 1).drop_last() =~= kinds.subrange(0, i));
        lemma_first_missing_stuck(report, kinds, i + 1);
    } else {
        assert(kinds.subrange(0, i) =~= kinds);
    }
}

/// The metrics a gate run on `input` measures: one per requested kind, in order.
/// Fails, for a gate with changed files assigned, on the first requested metric
/// that the report does not carry.
fn gate_metrics(report: &CoverageReport, input: &GateRunInput, kinds: &Vec<MetricKind>) -> (r: Result<
    Vec<ComputedMetric>,
    CovgateError,
>)
    ensures
        input.has_assigned_changes && first_missing(*report, kinds@) is Some ==> (r matches Err(e) && e.message@
            == unavailable_message(first_missing(*report, kinds@)->Some_0)),
        !(input.has_assigned_changes && first_missing(*report, kinds@) is Some) ==> (r matches Ok(ms) && ms@.len()
            == kinds@.len() && forall|j: int|
            0 <= j < kinds@.len() ==> #[trigger] is_gate_metric(*report, *input, kinds@[j], ms@[j])),
{
    let mut ms: Vec<ComputedMetric> = Vec::new();
    let mut j: usize = 0;
    assert(kinds@.subrange(0, 0) =~= Seq::<MetricKind>::empty());
    while j < kinds.len()
        invariant
            j <= kinds@.len(),
            ms@.len() == j,
            forall|t: int| 0 <= t < j ==> #[trigger] is_gate_metric(*report, *input, kinds@[t], ms@[t]),
            input.has_assigned_changes ==> first_missing(*report, kinds@.subrange(0, j as int)) is None,
        decreases kinds@.len() - j,
    {
        proof {
            assert(kinds@.subrange(0, j + 1).drop_last() =~= kinds@.subrange(0, j as int));
            assert(kinds@.subrange(0, j + 1).last() == kinds@[j as int]);
        }
        let m = kinds[j];
        let cm = match crate::metrics::compute_changed_metric(
            report,
            input.changed_files.as_slice(),
            input.paths.as_slice(),
            m,
        ) {
            Ok(cm) => cm,
            Err(e) => {
                if input.has_assigned_changes {
                    proof {
                        assert(first_missing(*report, kinds@.subrange(0, j + 1)) == Some(m));
                        lemma_first_missing_stuck(*report, kinds@, j + 1);
                    }
                    return Err(e);
                }
                empty_changed_metric(m)
            },
        };
        let ghost before = ms@;
        ms.push(cm);
        assert forall|t: int| 0 <= t < j + 1 implies #[trigger] is_gate_metric(*report, *input, kinds@[t], ms@[t]) by {
            if t < j {
                assert(ms@[t] == before[t]);
            }
        }
        j = j + 1;
    }
    assert(kinds@.subrange(0, kinds@.len() as int) =~= kinds@);
    Ok(ms)
}

/// `o` is the outcome of `rule` against what a gate run on `input` measures for
/// the rule's metric.
pub open spec fn is_gate_rule_outcome<P, F: Fn(usize, usize, P) -> bool>(
    report: CoverageReport,
    input: GateRunInput,
    rule: GateRule<P>,
    percent_met: F,
    o: RuleOutcome<P>,
) -> bool {
    exists|cm: ComputedMetric|
        is_gate_metric(report, input, rule_metric(rule), cm) && #[trigger] is_rule_outcome(rule, cm, percent_met, o)
}

/// `ev` is the evaluation of `gate` run on `input`: its label, and for each rule
/// the outcome against what that gate measures for the rule's metric.
pub open spec fn is_gate_outcome<P, F: Fn(usize, usize, P) -> bool>(
    report: CoverageReport,
    input: GateRunInput,
    gate: ConfiguredGate<P>,
    percent_met: F,
    ev: GateEvaluation<P>,
) -> bool {
    &&& ev.label == gate.label
    &&& ev.rules@.len() == gate.rules@.len()
    &&& forall|i: int|
        0 <= i < gate.rules@.len() ==> #[trigger] is_gate_rule_outcome(
            report,
            input,
            gate.rules@[i],
            percent_met,
            ev.rules@[i],
        )
    &&& ev.passed == (forall|i: int| 0 <= i < ev.rules@.len() ==> #[trigger] ev.rules@[i].passed)
}

proof fn lemma_metrics_cover_rules<P>(
    report: CoverageReport,
    input: GateRunInput,
    rules: Seq<GateRule<P>>,
    req: Seq<MetricKind>,
    ms: Seq<ComputedMetric>,
)
    requires
        req == requested_kinds(rules),
        ms.len() == req.len(),
        forall|j: int| 0 <= j < req.len() ==> #[trigger] is_gate_metric(report, input, req[j], ms[j]),
    ensures
        crate::gate::all_rules_supported(ms, rules),
        forall|i: int|
            0 <= i < rules.len() ==> is_gate_metric(
                report,
                input,
                rule_metric(#[trigger] rules[i]),
                ms[metric_index(ms, rule_metric(rules[i]))->Some_0],
            ),
{
    lemma_kinds_where(|m: MetricKind| rules_ask_for(rules, m), 5);
    assert forall|j: int| 0 <= j < ms.len() implies (#[trigger] ms[j]).metric == req[j] by {
        assert(is_gate_metric(report, input, req[j], ms[j]));
    }
    assert forall|i: int| 0 <= i < rules.len() implies {
        &&& metric_index(ms, rule_metric(#[trigger] rules[i])) matches Some(x)
        &&& 0 <= x < req.len()
        &&& req[x] == rule_metric(rules[i])
    } by {
        let m = rule_metric(rules[i]);
        assert(rules_ask_for(rules, m));
        assert(metric_rank(m) < 5);
        let j = choose|j: int| 0 <= j < req.len() && #[trigger] req[j] == m;
        lemma_metric_index(ms, m);
        assert(ms[j].metric == m);
    }
    assert forall|i: int|
        0 <= i < rules.len() implies is_gate_metric(
            report,
            input,
            rule_metric(#[trigger] rules[i]),
            ms[metric_index(ms, rule_metric(rules[i]))->Some_0],
        ) by {
        let x = metric_index(ms, rule_metric(rules[i]))->Some_0;
        assert(is_gate_metric(report, input, req[x], ms[x]));
    }
}

proof fn lemma_outcomes<P, F: Fn(usize, usize, P) -> bool>(
    report: CoverageReport,
    input: GateRunInput,
    gate: ConfiguredGate<P>,
    percent_met: F,
    ms: Seq<ComputedMetric>,
    ev: GateEvaluation<P>,
)
    requires
        forall|i: int|
            0 <= i < gate.rules@.len() ==> is_gate_metric(
                report,
                input,
                rule_metric(#[trigger] gate.rules@[i]),
                ms[metric_index(ms, rule_metric(gate.rules@[i]))->Some_0],
            ),
        ev.label == gate.label,
        ev.rules@.len() == gate.rules@.len(),
        forall|i: int|
            0 <= i < gate.rules@.len() ==> #[trigger] is_rule_outcome(
                gate.rules@[i],
                ms[metric_index(ms, rule_metric(gate.rules@[i]))->Some_0],
                percent_met,
                ev.rules@[i],
            ),
        ev.passed == (forall|i: int| 0 <= i < ev.rules@.len() ==> #[trigger] ev.rules@[i].passed),
    ensures
        is_gate_outcome(report, input, gate, percent_met, ev),
{
    assert forall|i: int| 0 <= i < gate.rules@.len() implies #[trigger] is_gate_rule_outcome(
        report,
        input,
        gate.rules@[i],
        percent_met,
        ev.rules@[i],
    ) by {
        let cm = ms[metric_index(ms, rule_metric(gate.rules@[i]))->Some_0];
        assert(is_gate_metric(report, input, rule_metric(gate.rules@[i]), cm));
        assert(is_rule_outcome(gate.rules@[i], cm, percent_met, ev.rules@[i]));
    }
}

/// A copy of an optional label.
fn copy_label(l: &Option<String>) -> (r: Option<String>)
    ensures
        r == *l,
{
    match l {
        Some(s) => Some(s.clone()),
        None => None,
    }
}

/// Runs one gate on its input: measures each requested metric and evaluates the rules.
fn run_gate<P: Copy, F: Fn(usize, usize, P) -> bool>(
    report: &CoverageReport,
    input: &GateRunInput,
    gate: &ConfiguredGate<P>,
    percent_met: &F,
) -> (r: Result<GateEvaluation<P>, CovgateError>)
    requires
        forall|c: usize, t: usize, p: P| call_requires(*percent_met, (c, t, p)),
    ensures
        ({
            let missing = first_missing(*report, requested_kinds(gate.rules@));
            &&& input.has_assigned_changes && missing is Some ==> (r matches Err(e) && e.message@ == unavailable_message(
                missing->Some_0,
            ))
            &&& !(input.has_assigned_changes && missing is Some) ==> (r matches Ok(ev) && is_gate_outcome(
                *report,
                *input,
                *gate,
                *percent_met,
                ev,
            ))
        }),
{
    let kinds = requested_metric_kinds(gate.rules.as_slice());
    let ms = match gate_metrics(report, input, &kinds) {
        Ok(ms) => ms,
        Err(e) => {
            return Err(e);
        },
    };
    proof {
        lemma_metrics_cover_rules(*report, *input, gate.rules@, kinds@, ms@);
    }
    let ghost metrics = ms@;
    let ev = match evaluate(copy_label(&gate.label), ms, gate.rules.as_slice(), percent_met) {
        Ok(ev) => ev,
        Err(e) => {
            return Err(e);
        },
    };
    proof {
        lemma_outcomes(*report, *input, *gate, *percent_met, metrics, ev);
    }
    Ok(ev)
}


/// The changed metric `m` of the whole diff over every supported file.
pub open spec fn is_run_changed_metric(report: CoverageReport, diff: Seq<ChangedFile>, m: MetricKind, cm: ComputedMetric) -> bool {
    exists|paths: Seq<String>|
        lists_paths(paths, |p: Seq<char>| is_supported(report, p)) && #[trigger] is_changed_metric_of(
            report,
            diff,
            paths,
            m,
            cm,
        )
}

/// The per-file totals of every metric sum within `usize`.
pub open spec fn overall_sums_fit(report: CoverageReport) -> bool {
    forall|m: MetricKind|
        #[trigger] totals_lookup(report.totals_by_file@, m) matches Some(t) ==> sum_covered(t) <= usize::MAX
            && sum_total(t) <= usize::MAX
}

/// The changed metrics of the whole diff, over the supported files `included`, for
/// each metric the report carries, in sort order.
fn compute_run_changed_metrics(report: &CoverageReport, diff: &[ChangedFile], included: &Vec<String>) -> (r: Vec<
    ComputedMetric,
>)
    ensures
        r@.len() == available_kinds(*report).len(),
        forall|j: int|
            0 <= j < r@.len() ==> #[trigger] is_changed_metric_of(
                *report,
                diff@,
                included@,
                available_kinds(*report)[j],
                r@[j],
            ),
{
    let kinds = available_metric_kinds(report);
    proof {
        lemma_kinds_where(|m: MetricKind| metric_available(*report, m), 5);
    }
    let mut r: Vec<ComputedMetric> = Vec::new();
    let mut j: usize = 0;
    while j < kinds.len()
        invariant
            kinds@ == available_kinds(*report),
            forall|t: int| 0 <= t < kinds@.len() ==> metric_available(*report, #[trigger] kinds@[t]),
            j <= kinds@.len(),
            r@.len() == j,
            forall|t: int| 0 <= t < j ==> #[trigger] is_changed_metric_of(*report, diff@, included@, kinds@[t], r@[t]),
        decreases kinds@.len() - j,
    {
        let m = kinds[j];
        assert(metric_available(*report, kinds@[j as int]));
        let cm = match crate::metrics::compute_changed_metric(report, diff, included.as_slice(), m) {
            Ok(cm) => cm,
            Err(e) => {
                assert(false);
                empty_changed_metric(m)
            },
        };
        let ghost before = r@;
        r.push(cm);
        assert forall|t: int| 0 <= t < j + 1 implies #[trigger] is_changed_metric_of(*report, diff@, included@, kinds@[t], r@[t]) by {
            if t < j {
                assert(r@[t] == before[t]);
            }
        }
        j = j + 1;
    }
    r
}

/// The overall metric of each metric the report carries, in sort order.
fn compute_overall_metrics(report: &CoverageReport) -> (r: Vec<ComputedMetric>)
    requires
        overall_sums_fit(*report),
    ensures
        r@.len() == available_kinds(*report).len(),
        forall|j: int| 0 <= j < r@.len() ==> #[trigger] is_overall_metric(*report, available_kinds(*report)[j], r@[j]),
{
    let kinds = available_metric_kinds(report);
    proof {
        lemma_kinds_where(|m: MetricKind| metric_available(*report, m), 5);
    }
    let mut r: Vec<ComputedMetric> = Vec::new();
    let mut j: usize = 0;
    while j < kinds.len()
        invariant
            overall_sums_fit(*report),
            kinds@ == available_kinds(*report),
            forall|t: int| 0 <= t < kinds@.len() ==> metric_available(*report, #[trigger] kinds@[t]),
            j <= kinds@.len(),
            r@.len() == j,
            forall|t: int| 0 <= t < j ==> #[trigger] is_overall_metric(*report, kinds@[t], r@[t]),
        decreases kinds@.len() - j,
    {
        let m = kinds[j];
        assert(metric_available(*report, kinds@[j as int]));
        assert(totals_lookup(report.totals_by_file@, m) matches Some(t) ==> sum_covered(t) <= usize::MAX && sum_total(t)
            <= usize::MAX);
        let cm = match compute_overall_metric(report, m) {
            Ok(cm) => cm,
            Err(e) => {
                assert(false);
                empty_changed_metric(m)
            },
        };
        let ghost before = r@;
        r.push(cm);
        assert forall|t: int| 0 <= t < j + 1 implies #[trigger] is_overall_metric(*report, kinds@[t], r@[t]) by {
            if t < j {
                assert(r@[t] == before[t]);
            }
        }
        j = j + 1;
    }
    r
}

/// Why gate `g` cannot be run: it has changed files assigned, and the report does
/// not carry a metric that its rules ask for (the first such, in sort order).
pub open spec fn gate_failure<P>(report: CoverageReport, diff: Seq<ChangedFile>, gates: Seq<ConfiguredGate<P>>, g: int) -> Option<
    Seq<char>,
> {
    if assigned_to(report, diff, gates, g).len() > 0 {
        match first_missing(report, requested_kinds(gates[g].rules@)) {
            Some(m) => Some(unavailable_message(m)),
            None => None,
        }
    } else {
        None
    }
}

/// The failure of the first of the first `n` participating gates that cannot be run.
pub open spec fn participants_failure<P>(
    report: CoverageReport,
    diff: Seq<ChangedFile>,
    gates: Seq<ConfiguredGate<P>>,
    n: nat,
) -> Option<Seq<char>>
    decreases n,
{
    if n == 0 {
        None
    } else {
        match participants_failure(report, diff, gates, (n - 1) as nat) {
            Some(m) => Some(m),
            None => gate_failure(report, diff, gates, participants(gates)[n - 1]),
        }
    }
}

/// Why a check run fails: a changed file that cannot be placed in a gate, else a
/// gate that cannot be run.
pub open spec fn check_failure<P>(report: CoverageReport, diff: Seq<ChangedFile>, gates: Seq<ConfiguredGate<P>>) -> Option<
    Seq<char>,
> {
    match assign_failure(report, diff, gates) {
        Some(m) => Some(m),
        None => participants_failure(report, diff, gates, participants(gates).len()),
    }
}

/// `ev` is the evaluation of gate `g` run on what is assigned to it.
pub open spec fn is_gate_result<P, F: Fn(usize, usize, P) -> bool>(
    report: CoverageReport,
    diff: Seq<ChangedFile>,
    gates: Seq<ConfiguredGate<P>>,
    percent_met: F,
    g: int,
    ev: GateEvaluation<P>,
) -> bool {
    exists|input: GateRunInput|
        is_gate_run_input(report, diff, gates, g, input) && #[trigger] is_gate_outcome(
            report,
            input,
            gates[g],
            percent_met,
            ev,
        )
}

/// `res` is the result of a check run: each participating gate's evaluation, in
/// order; the changed metrics of the whole diff and the overall metrics, for each
/// metric the report carries; and whether every gate passed.
pub open spec fn is_check_result<P, F: Fn(usize, usize, P) -> bool>(
    report: CoverageReport,
    diff: Seq<ChangedFile>,
    gates: Seq<ConfiguredGate<P>>,
    percent_met: F,
    res: CheckResult<P>,
) -> bool {
    let parts = participants(gates);
    let kinds = available_kinds(report);
    &&& res.gates@.len() == parts.len()
    &&& forall|j: int|
        0 <= j < parts.len() ==> #[trigger] is_gate_result(report, diff, gates, percent_met, parts[j], res.gates@[j])
    &&& res.changed_metrics@.len() == kinds.len()
    &&& forall|j: int|
        0 <= j < kinds.len() ==> #[trigger] is_run_changed_metric(report, diff, kinds[j], res.changed_metrics@[j])
    &&& res.overall_metrics@.len() == kinds.len()
    &&& forall|j: int| 0 <= j < kinds.len() ==> #[trigger] is_overall_metric(report, kinds[j], res.overall_metrics@[j])
    &&& res.passed == (forall|j: int| 0 <= j < res.gates@.len() ==> #[trigger] res.gates@[j].passed)
}

proof fn lemma_participants_failure_stuck<P>(
    report: CoverageReport,
    diff: Seq<ChangedFile>,
    gates: Seq<ConfiguredGate<P>>,
    i: nat,
    n: nat,
)
    requires
        i <= n,
        participants_failure(report, diff, gates, i) is Some,
    ensures
        participants_failure(report, diff, gates, n) == participants_failure(report, diff, gates, i),
    decreases n - i,
{
    if i < n {
        lemma_participants_failure_stuck(report, diff, gates, i, (n - 1) as nat);
    }
}

/// Runs a check: places the changed files in the gates, runs each participating
/// gate, and measures the changed and overall metrics of the report. Percent
/// rules are decided by `percent_met(covered, total, minimum)`.
pub fn check<P: Copy, F: Fn(usize, usize, P) -> bool>(
    report: &CoverageReport,
    diff: &[ChangedFile],
    gates: &[ConfiguredGate<P>],
    percent_met: &F,
) -> (r: Result<CheckResult<P>, CovgateError>)
    requires
        forall|c: usize, t: usize, p: P| call_requires(*percent_met, (c, t, p)),
        overall_sums_fit(*report),
    ensures
        check_failure(*report, diff@, gates@) matches Some(m) ==> (r matches Err(e) && e.message@ == m),
        check_failure(*report, diff@, gates@) is None ==> (r matches Ok(res) && is_check_result(
            *report,
            diff@,
            gates@,
            *percent_met,
            res,
        )),
{
    let overall_metrics = compute_overall_metrics(report);
    let inputs = match assign_changed_files(report, diff, gates) {
        Ok(inputs) => inputs,
        Err(e) => {
            return Err(e);
        },
    };
    let ghost parts = participants(gates@);
    let mut evaluations: Vec<GateEvaluation<P>> = Vec::new();
    let mut passed = true;
    let mut j: usize = 0;
    while j < inputs.len()
        invariant
            forall|c: usize, t: usize, p: P| call_requires(*percent_met, (c, t, p)),
            assign_failure(*report, diff@, gates@) is None,
            parts == participants(gates@),
            inputs@.len() == parts.len(),
            forall|t: int|
                0 <= t < inputs@.len() ==> is_gate_run_input(*report, diff@, gates@, parts[t], #[trigger] inputs@[t]),
            j <= inputs@.len(),
            participants_failure(*report, diff@, gates@, j as nat) is None,
            evaluations@.len() == j,
            forall|t: int| 0 <= t < j ==> #[trigger] is_gate_result(*report, diff@, gates@, *percent_met, parts[t], evaluations@[t]),
            passed == (forall|t: int| 0 <= t < j ==> #[trigger] evaluations@[t].passed),
        decreases inputs@.len() - j,
    {
        let input = &inputs[j];
        assert(is_gate_run_input(*report, diff@, gates@, parts[j as int], inputs@[j as int]));
        proof {
            lemma_scoped_bounds(gates@, gates@.len());
            lemma_first_fallback(gates@, gates@.len());
            assert(0 <= parts[j as int] < gates@.len());
        }
        let gate = &gates[input.gate];
        let ev = match run_gate(report, input, gate, percent_met) {
            Ok(ev) => ev,
            Err(e) => {
                proof {
                    assert(participants_failure(*report, diff@, gates@, (j + 1) as nat) == Some(e.message@));
                    lemma_participants_failure_stuck(*report, diff@, gates@, (j + 1) as nat, parts.len());
                }
                return Err(e);
            },
        };
        let ghost before = evaluations@;
        if !ev.passed {
            passed = false;
        }
        evaluations.push(ev);
        proof {
            assert(is_gate_result(*report, diff@, gates@, *percent_met, parts[j as int], evaluations@[j as int]));
            assert forall|t: int| 0 <= t < j + 1 implies #[trigger] is_gate_result(*report, diff@, gates@, *percent_met, parts[t], evaluations@[t]) by {
                if t < j {
                    assert(evaluations@[t] == before[t]);
                }
            }
            if passed {
                assert forall|t: int| 0 <= t < j + 1 implies #[trigger] evaluations@[t].passed by {
                    if t < j {
                        assert(evaluations@[t] == before[t]);
                    }
                }
            } else if evaluations@[j as int].passed {
                let w = choose|t: int| 0 <= t < j && !#[trigger] before[t].passed;
                assert(evaluations@[w] == before[w]);
            }
        }
        j = j + 1;
    }
    let included = supported_files(report);
    let changed_metrics = compute_run_changed_metrics(report, diff, &included);
    proof {
        assert forall|t: int| 0 <= t < changed_metrics@.len() implies #[trigger] is_run_changed_metric(
            *report,
            diff@,
            available_kinds(*report)[t],
            changed_metrics@[t],
        ) by {
            assert(is_changed_metric_of(*report, diff@, included@, available_kinds(*report)[t], changed_metrics@[t]));
        }
    }
    Ok(CheckResult { gates: evaluations, changed_metrics, overall_metrics, passed })
}

} // verus!
