//! The parts of the console and Markdown summaries that do not depend on how a
//! percentage is printed: headings, gate labels and grouped span lists.
use vstd::prelude::*;

use crate::config::{joined, string_views};
use crate::model::{
    is_span_grouping, metric_rank, span_text, ComputedMetric, CoverageOpportunity, GateEvaluation, MetricKind,
    SourceSpan, SpanKey,
};
use crate::sorted::{lemma_lists_insert, lemma_lists_update, lists_by, strict_total};
use crate::text::{
    chars_equal, chars_of, decimal, lemma_path_order, path_less, path_lt, push_chars, push_decimal, push_str,
    string_from_chars,
};

verus! {

/// What `char::to_uppercase` yields for `c`: its Unicode uppercase mapping.
pub uninterp spec fn uppercase_of(c: char) -> Seq<char>;

/// Calls `char::to_uppercase` and collects what it yields. Unicode maps an ASCII
/// lowercase letter to the matching capital, and leaves every other ASCII
/// character as it is; the mapping of other characters is not stated here.
#[verifier::external_body]
fn to_uppercase_chars(c: char) -> (r: String)
    ensures
        r@ == uppercase_of(c),
        'a' <= c <= 'z' ==> r@ == seq![((c as u32) - 32) as char],
        (c as u32) < 128 && !('a' <= c <= 'z') ==> r@ == seq![c],
{
    c.to_uppercase().collect::<String>()
}

/// The pieces of `s` between the separators `sep`, as `str::split` yields them.
pub open spec fn split_on(s: Seq<char>, sep: char) -> Seq<Seq<char>>
    decreases s.len(),
{
    if s.len() == 0 {
        seq![seq![]]
    } else {
        let prev = split_on(s.drop_last(), sep);
        if s.last() == sep {
            prev.push(seq![])
        } else {
            prev.update(prev.len() - 1, prev.last().push(s.last()))
        }
    }
}

proof fn lemma_split_nonempty(s: Seq<char>, sep: char)
    ensures
        split_on(s, sep).len() > 0,
    decreases s.len(),
{
    if s.len() > 0 {
        lemma_split_nonempty(s.drop_last(), sep);
    }
}

/// A word with its first character in upper case.
pub open spec fn title_word(w: Seq<char>) -> Seq<char> {
    if w.len() == 0 {
        seq![]
    } else {
        uppercase_of(w[0]) + w.drop_first()
    }
}

/// `s` in title case: its `-`-separated words, each with an upper-case first
/// character, joined with spaces.
pub open spec fn title_cased(s: Seq<char>) -> Seq<char> {
    joined(split_on(s, '-').map_values(|w: Seq<char>| title_word(w)), seq![' '])
}

/// The pieces of `v` between the separators `sep`.
pub fn split_by(v: &Vec<char>, sep: char) -> (r: Vec<Vec<char>>)
    ensures
        r@.map_values(|w: Vec<char>| w@) == split_on(v@, sep),
{
    let mut r: Vec<Vec<char>> = Vec::new();
    let mut cur: Vec<char> = Vec::new();
    let mut i: usize = 0;
    assert(v@.subrange(0, 0) =~= Seq::<char>::empty());
    while i < v.len()
        invariant
            i <= v@.len(),
            r@.map_values(|w: Vec<char>| w@).push(cur@) == split_on(v@.subrange(0, i as int), sep),
        decreases v@.len() - i,
    {
        let ghost prefix = v@.subrange(0, (i + 1) as int);
        assert(prefix.drop_last() =~= v@.subrange(0, i as int));
        let ghost before = r@.map_values(|w: Vec<char>| w@);
        if v[i] == sep {
            let done = cur;
            r.push(done);
            cur = Vec::new();
            assert(r@.map_values(|w: Vec<char>| w@) =~= before.push(done@));
        } else {
            let ghost old_cur = cur@;
            cur.push(v[i]);
            assert(r@.map_values(|w: Vec<char>| w@) =~= before);
            assert(before.push(old_cur).update(before.len() as int, old_cur.push(v@[i as int])) =~= before.push(cur@));
        }
        i = i + 1;
    }
    assert(v@.subrange(0, v@.len() as int) =~= v@);
    let ghost before = r@.map_values(|w: Vec<char>| w@);
    r.push(cur);
    assert(r@.map_values(|w: Vec<char>| w@) =~= before.push(cur@));
    r
}

/// `value` in title case: each `-`-separated word with its first character in
/// upper case, the words joined with spaces.
pub fn title_case(value: &str) -> (r: String)
    ensures
        r@ == title_cased(value@),
{
    let v = chars_of(value);
    let words = split_by(&v, '-');
    let ghost ws = words@.map_values(|w: Vec<char>| w@);
    let mut titled: Vec<String> = Vec::new();
    let mut i: usize = 0;
    while i < words.len()
        invariant
            i <= words@.len(),
            ws == words@.map_values(|w: Vec<char>| w@),
            titled@.len() == i,
            forall|j: int| 0 <= j < i ==> #[trigger] titled@[j]@ == title_word(ws[j]),
        decreases words@.len() - i,
    {
        let w = &words[i];
        let mut s = String::new();
        if w.len() > 0 {
            let first = to_uppercase_chars(w[0]);
            push_str(&mut s, first.as_str());
            let rest = crate::text::slice_chars(w.as_slice(), 1, w.len());
            push_chars(&mut s, rest.as_slice());
            assert(w@.drop_first() =~= rest@);
        }
        assert(s@ =~= title_word(ws[i as int]));
        titled.push(s);
        i = i + 1;
    }
    let r = crate::config::join_strings(titled.as_slice(), " ");
    proof {
        reveal_strlit(" ");
        assert(" "@ =~= seq![' ']);
        assert(string_views(titled@) =~= split_on(value@, '-').map_values(|w: Seq<char>| title_word(w)));
    }
    r
}

/// The label of a span group: the span, and its count in brackets when above one.
pub open spec fn group_label(k: SpanKey, count: usize) -> Seq<char> {
    if count > 1 {
        span_text(k) + seq!['('] + decimal(count as nat) + seq![')']
    } else {
        span_text(k)
    }
}


/// A file and a metric, by which uncovered spans are listed.
pub type FileMetric = (Seq<char>, MetricKind);

/// Files in path order, and the metrics of one file in metric order.
pub open spec fn file_metric_lt(a: FileMetric, b: FileMetric) -> bool {
    path_lt(a.0, b.0) || (a.0 == b.0 && metric_rank(a.1) < metric_rank(b.1))
}

pub open spec fn file_metric_order() -> spec_fn(FileMetric, FileMetric) -> bool {
    |a: FileMetric, b: FileMetric| file_metric_lt(a, b)
}

proof fn lemma_file_metric_order_total()
    ensures
        strict_total(file_metric_order()),
{
    assert forall|a: FileMetric| #![trigger file_metric_order()(a, a)] !file_metric_order()(a, a) by {
        lemma_path_order(a.0, a.0, a.0);
    }
    assert forall|a: FileMetric, b: FileMetric, c: FileMetric|
        #![trigger file_metric_order()(a, b), file_metric_order()(b, c)]
        file_metric_order()(a, b) && file_metric_order()(b, c) implies file_metric_order()(a, c) by {
        lemma_path_order(a.0, b.0, c.0);
        lemma_path_order(a.0, a.0, c.0);
    }
    assert forall|a: FileMetric, b: FileMetric| #![trigger file_metric_order()(a, b)] a != b implies file_metric_order()(
        a,
        b,
    ) || file_metric_order()(b, a) by {
        lemma_path_order(a.0, b.0, b.0);
    }
}

/// `m` with the spans of `ops` appended, in order, under their file and `kind`.
pub open spec fn add_spans(
    m: Map<FileMetric, Seq<SourceSpan>>,
    kind: MetricKind,
    ops: Seq<CoverageOpportunity>,
) -> Map<FileMetric, Seq<SourceSpan>>
    decreases ops.len(),
{
    if ops.len() == 0 {
        m
    } else {
        let m0 = add_spans(m, kind, ops.drop_last());
        let s = ops.last().span;
        let k = (s.path@, kind);
        m0.insert(
            k,
            if m0.contains_key(k) {
                m0[k]
            } else {
                seq![]
            }.push(s),
        )
    }
}

/// The uncovered spans of the first `n` metrics whose kind is in `kinds`, per file
/// and metric, each list in the order the metrics give them.
pub open spec fn uncovered_spans(metrics: Seq<ComputedMetric>, kinds: Seq<MetricKind>, n: nat) -> Map<
    FileMetric,
    Seq<SourceSpan>,
>
    decreases n,
{
    if n == 0 {
        Map::empty()
    } else {
        let m0 = uncovered_spans(metrics, kinds, (n - 1) as nat);
        let cm = metrics[n - 1];
        if kinds.contains(cm.metric) {
            add_spans(m0, cm.metric, cm.uncovered_changed_opportunities@)
        } else {
            m0
        }
    }
}

/// The plain values of a file-and-metric table.
pub open spec fn file_metric_keys(v: Seq<(String, MetricKind, Vec<SourceSpan>)>) -> Seq<FileMetric> {
    v.map_values(|e: (String, MetricKind, Vec<SourceSpan>)| (e.0@, e.1))
}

pub open spec fn file_metric_spans(v: Seq<(String, MetricKind, Vec<SourceSpan>)>) -> Seq<Seq<SourceSpan>> {
    v.map_values(|e: (String, MetricKind, Vec<SourceSpan>)| e.2@)
}

fn file_metric_less(a: &[char], am: MetricKind, b: &[char], bm: MetricKind) -> (r: bool)
    ensures
        r == file_metric_lt((a@, am), (b@, bm)),
{
    if path_less(a, b) {
        true
    } else if chars_equal(a, b) {
        rank_of(am) < rank_of(bm)
    } else {
        false
    }
}

fn rank_of(m: MetricKind) -> (r: u8)
    ensures
        r as nat == metric_rank(m),
{
    match m {
        MetricKind::Region => 0,
        MetricKind::Line => 1,
        MetricKind::Branch => 2,
        MetricKind::Function => 3,
        MetricKind::NamedFunction => 4,
    }
}

fn kind_listed(kinds: &[MetricKind], m: MetricKind) -> (r: bool)
    ensures
        r == kinds@.contains(m),
{
    let mut i: usize = 0;
    while i < kinds.len()
        invariant
            i <= kinds@.len(),
            forall|j: int| 0 <= j < i ==> kinds@[j] != m,
        decreases kinds@.len() - i,
    {
        if rank_of(kinds[i]) == rank_of(m) {
            assert(kinds@[i as int] == m);
            return true;
        }
        i = i + 1;
    }
    false
}

/// Appends `span` to the list of its file and `kind`.
fn add_span(
    table: &mut Vec<(String, MetricKind, Vec<SourceSpan>)>,
    kind: MetricKind,
    span: &SourceSpan,
    Ghost(m): Ghost<Map<FileMetric, Seq<SourceSpan>>>,
)
    requires
        lists_by(file_metric_keys(old(table)@), file_metric_spans(old(table)@), m, file_metric_order()),
    ensures
        ({
            let k = (span.path@, kind);
            lists_by(
                file_metric_keys(final(table)@),
                file_metric_spans(final(table)@),
                m.insert(
                    k,
                    if m.contains_key(k) {
                        m[k]
                    } else {
                        seq![]
                    }.push(*span),
                ),
                file_metric_order(),
            )
        }),
{
    proof {
        lemma_file_metric_order_total();
    }
    let ghost ks = file_metric_keys(table@);
    let ghost vs = file_metric_spans(table@);
    let ghost k = (span.path@, kind);
    let path = chars_of(span.path.as_str());
    let mut p: usize = 0;
    while p < table.len() && file_metric_less(chars_of(table[p].0.as_str()).as_slice(), table[p].1, path.as_slice(), kind)
        invariant
            p <= table@.len(),
            ks == file_metric_keys(table@),
            k == (span.path@, kind),
            path@ == span.path@,
            forall|i: int| 0 <= i < p ==> file_metric_lt(#[trigger] ks[i], k),
        decreases table@.len() - p,
    {
        assert(ks[p as int] == (table@[p as int].0@, table@[p as int].1));
        p = p + 1;
    }
    if p < table.len() {
        assert(ks[p as int] == (table@[p as int].0@, table@[p as int].1));
    }
    if p < table.len() && crate::text::str_equal(table[p].0.as_str(), span.path.as_str()) && rank_of(table[p].1)
        == rank_of(kind) {
        assert(ks[p as int] == k);
        assert(m.contains_key(k) && m[k] == vs[p as int]);
        let mut entry = (String::new(), kind, Vec::new());
        std::mem::swap(&mut entry, &mut table[p]);
        let ghost before = entry.2@;
        assert(before == vs[p as int]);
        entry.2.push(span.clone());
        let ghost nv = entry.2@;
        assert(nv == m[k].push(*span));
        proof {
            lemma_lists_update(ks, vs, m, file_metric_order(), p as int, nv);
        }
        table.set(p, entry);
        assert(file_metric_keys(table@) =~= ks);
        assert(file_metric_spans(table@) =~= vs.update(p as int, nv));
    } else {
        if p < table.len() {
            proof {
                let kp = ks[p as int];
                assert(kp != k);
                assert(file_metric_order()(kp, k) || file_metric_order()(k, kp));
            }
        }
        let mut spans: Vec<SourceSpan> = Vec::new();
        spans.push(span.clone());
        let ghost nv = spans@;
        assert(nv =~= seq![*span]);
        proof {
            lemma_lists_insert(ks, vs, m, file_metric_order(), p as int, k, nv);
            assert(!m.contains_key(k));
            assert(nv =~= Seq::<SourceSpan>::empty().push(*span));
        }
        table.insert(p, (span.path.clone(), kind, spans));
        assert(file_metric_keys(table@) =~= ks.insert(p as int, k));
        assert(file_metric_spans(table@) =~= vs.insert(p as int, nv));
    }
}

/// The uncovered changed spans of the metrics whose kind is in `kinds`, listed per
/// file (in path order) and metric (in metric order), each list in the order the
/// metrics give them.
pub fn uncovered_by_file(metrics: &[ComputedMetric], kinds: &[MetricKind]) -> (r: Vec<
    (String, MetricKind, Vec<SourceSpan>),
>)
    ensures
        lists_by(
            file_metric_keys(r@),
            file_metric_spans(r@),
            uncovered_spans(metrics@, kinds@, metrics@.len() as nat),
            file_metric_order(),
        ),
{
    let mut table: Vec<(String, MetricKind, Vec<SourceSpan>)> = Vec::new();
    proof {
        assert(file_metric_keys(table@) =~= Seq::<FileMetric>::empty());
        assert(file_metric_spans(table@) =~= Seq::<Seq<SourceSpan>>::empty());
    }
    let mut i: usize = 0;
    while i < metrics.len()
        invariant
            i <= metrics@.len(),
            lists_by(
                file_metric_keys(table@),
                file_metric_spans(table@),
                uncovered_spans(metrics@, kinds@, i as nat),
                file_metric_order(),
            ),
        decreases metrics@.len() - i,
    {
        let cm = &metrics[i];
        if kind_listed(kinds, cm.metric) {
            let ghost m0 = uncovered_spans(metrics@, kinds@, i as nat);
            let ops = &cm.uncovered_changed_opportunities;
            let mut j: usize = 0;
            assert(ops@.subrange(0, 0) =~= Seq::<CoverageOpportunity>::empty());
            while j < ops.len()
                invariant
                    j <= ops@.len(),
                    lists_by(
                        file_metric_keys(table@),
                        file_metric_spans(table@),
                        add_spans(m0, cm.metric, ops@.subrange(0, j as int)),
                        file_metric_order(),
                    ),
                decreases ops@.len() - j,
            {
                proof {
                    assert(ops@.subrange(0, j + 1).drop_last() =~= ops@.subrange(0, j as int));
                    assert(ops@.subrange(0, j + 1).last() == ops@[j as int]);
                }
                add_span(
                    &mut table,
                    cm.metric,
                    &ops[j].span,
                    Ghost(add_spans(m0, cm.metric, ops@.subrange(0, j as int))),
                );
                j = j + 1;
            }
            assert(ops@.subrange(0, ops@.len() as int) =~= ops@);
        }
        i = i + 1;
    }
    table
}

/// The labels of span groups, in order.
pub open spec fn group_labels(groups: Seq<(SpanKey, usize)>) -> Seq<Seq<char>> {
    groups.map_values(|g: (SpanKey, usize)| group_label(g.0, g.1))
}

/// The spans of one file, grouped by location in increasing order, each with its
/// count when it occurs more than once.
pub fn group_file_spans(spans: &[SourceSpan]) -> (r: Vec<String>)
    ensures
        exists|groups: Seq<(SpanKey, usize)>|
            is_span_grouping(spans@, groups) && #[trigger] group_labels(groups) == string_views(r@),
{
    let groups = SourceSpan::group_by_span(spans);
    let mut r: Vec<String> = Vec::new();
    let mut i: usize = 0;
    while i < groups.len()
        invariant
            i <= groups@.len(),
            r@.len() == i,
            forall|j: int| 0 <= j < i ==> #[trigger] r@[j]@ == group_label(groups@[j].0, groups@[j].1),
        decreases groups@.len() - i,
    {
        let (key, count) = groups[i];
        let mut s = key.format_span();
        if count > 1 {
            s.push('(');
            push_decimal(&mut s, count as u64);
            s.push(')');
        }
        assert(s@ =~= group_label(key, count));
        r.push(s);
        i = i + 1;
    }
    assert(group_labels(groups@) =~= string_views(r@));
    r
}

/// The label of a gate in the summary: its own label, else `default` when there
/// are several gates, else none.
pub open spec fn gate_summary_label(label: Option<String>, multiple: bool) -> Option<Seq<char>> {
    match label {
        Some(l) => Some(l@),
        None => if multiple {
            Some("default"@)
        } else {
            None
        },
    }
}

/// The label under which a gate's rules are listed.
pub fn summary_label<P>(gate: &GateEvaluation<P>, multiple_scopes: bool) -> (r: Option<String>)
    ensures
        match r {
            Some(s) => gate_summary_label(gate.label, multiple_scopes) == Some(s@),
            None => gate_summary_label(gate.label, multiple_scopes) is None,
        },
{
    match &gate.label {
        Some(l) => Some(l.clone()),
        None => {
            if multiple_scopes {
                Some(String::from_str("default"))
            } else {
                None
            }
        },
    }
}

/// The label of a gate in the Markdown tables: as in the summary, or empty.
pub fn scope_label<P>(gate: &GateEvaluation<P>, multiple_scopes: bool) -> (r: String)
    ensures
        match gate_summary_label(gate.label, multiple_scopes) {
            Some(l) => r@ == l,
            None => r@ == Seq::<char>::empty(),
        },
{
    match summary_label(gate, multiple_scopes) {
        Some(s) => s,
        None => String::new(),
    }
}

/// The label of a span group in Markdown: in backticks, with its count when above one.
pub open spec fn missed_label(k: SpanKey, count: usize) -> Seq<char> {
    seq!['`'] + group_label(k, count) + seq!['`']
}

/// The Markdown labels of span groups, in order.
pub open spec fn missed_labels(groups: Seq<(SpanKey, usize)>) -> Seq<Seq<char>> {
    groups.map_values(|g: (SpanKey, usize)| missed_label(g.0, g.1))
}

/// The missed spans of one file for a Markdown table: each group in backticks,
/// separated by commas; empty when there are none.
pub fn format_missed_spans(spans: &[SourceSpan]) -> (r: String)
    ensures
        exists|groups: Seq<(SpanKey, usize)>|
            is_span_grouping(spans@, groups) && r@ == joined(#[trigger] missed_labels(groups), ", "@),
{
    let groups = SourceSpan::group_by_span(spans);
    let mut labels: Vec<String> = Vec::new();
    let mut i: usize = 0;
    while i < groups.len()
        invariant
            i <= groups@.len(),
            labels@.len() == i,
            forall|j: int| 0 <= j < i ==> #[trigger] labels@[j]@ == missed_label(groups@[j].0, groups@[j].1),
        decreases groups@.len() - i,
    {
        let (key, count) = groups[i];
        let mut s = String::new();
        s.push('`');
        let f = key.format_span();
        push_str(&mut s, f.as_str());
        if count > 1 {
            s.push('(');
            push_decimal(&mut s, count as u64);
            s.push(')');
        }
        s.push('`');
        assert(s@ =~= missed_label(key, count));
        labels.push(s);
        i = i + 1;
    }
    let r = crate::config::join_strings(labels.as_slice(), ", ");
    assert(string_views(labels@) =~= missed_labels(groups@));
    r
}

} // verus!
