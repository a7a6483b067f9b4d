//! The coverage data model: metrics, spans, opportunities, reports and results.
use vstd::prelude::*;

use crate::text::{decimal, decimal_string, push_chars, push_str, string_from_chars};

verus! {

/// A kind of coverage measurement.
#[derive(Clone, Copy, Debug, PartialEq, Eq, PartialOrd, Ord, Hash, Structural)]
pub enum MetricKind {
    Region,
    Line,
    Branch,
    Function,
    NamedFunction,
}

/// How much detail the console summary shows.
#[derive(Clone, Copy, Debug, PartialEq, Eq, Structural)]
pub enum Verbosity {
    Normal,
    Verbose,
}

/// The kind of a single coverage opportunity in a report.
#[derive(Clone, Copy, Debug, PartialEq, Eq, Structural)]
pub enum OpportunityKind {
    Region,
    Line,
    BranchOutcome,
    Function,
}

/// The position of a metric in the declaration order, which is also its sort order.
pub open spec fn metric_rank(m: MetricKind) -> nat {
    match m {
        MetricKind::Region => 0,
        MetricKind::Line => 1,
        MetricKind::Branch => 2,
        MetricKind::Function => 3,
        MetricKind::NamedFunction => 4,
    }
}

/// The identifier of a metric, as used on the command line and in reports.
pub open spec fn metric_name(m: MetricKind) -> Seq<char> {
    match m {
        MetricKind::Region => "region"@,
        MetricKind::Line => "line"@,
        MetricKind::Branch => "branch"@,
        MetricKind::Function => "function"@,
        MetricKind::NamedFunction => "named-function"@,
    }
}

/// The plural label of a metric.
pub open spec fn metric_label(m: MetricKind) -> Seq<char> {
    match m {
        MetricKind::Region => "regions"@,
        MetricKind::Line => "lines"@,
        MetricKind::Branch => "branches"@,
        MetricKind::Function => "functions"@,
        MetricKind::NamedFunction => "named-functions"@,
    }
}

/// The kind of opportunity that a metric counts.
pub open spec fn opportunity_kind_of(m: MetricKind) -> OpportunityKind {
    match m {
        MetricKind::Region => OpportunityKind::Region,
        MetricKind::Line => OpportunityKind::Line,
        MetricKind::Branch => OpportunityKind::BranchOutcome,
        MetricKind::Function => OpportunityKind::Function,
        MetricKind::NamedFunction => OpportunityKind::Function,
    }
}

impl MetricKind {
    pub fn as_str(self) -> (s: &'static str)
        ensures
            s@ == metric_name(self),
    {
        match self {
            MetricKind::Region => "region",
            MetricKind::Line => "line",
            MetricKind::Branch => "branch",
            MetricKind::Function => "function",
            MetricKind::NamedFunction => "named-function",
        }
    }

    pub fn label(self) -> (s: &'static str)
        ensures
            s@ == metric_label(self),
    {
        match self {
            MetricKind::Region => "regions",
            MetricKind::Line => "lines",
            MetricKind::Branch => "branches",
            MetricKind::Function => "functions",
            MetricKind::NamedFunction => "named-functions",
        }
    }

    pub fn to_opportunity_kind(self) -> (k: OpportunityKind)
        ensures
            k == opportunity_kind_of(self),
    {
        match self {
            MetricKind::Region => OpportunityKind::Region,
            MetricKind::Line => OpportunityKind::Line,
            MetricKind::Branch => OpportunityKind::BranchOutcome,
            MetricKind::Function => OpportunityKind::Function,
            MetricKind::NamedFunction => OpportunityKind::Function,
        }
    }
}

/// A gate rule: a minimum coverage percentage or a maximum count of uncovered
/// changed opportunities. The percentage threshold is carried as an opaque value
/// of type `P`; only the caller compares it against an observed percentage.
#[derive(Clone, Copy, Debug, PartialEq)]
pub enum GateRule<P> {
    Percent { metric: MetricKind, minimum_percent: P },
    UncoveredCount { metric: MetricKind, maximum_count: usize },
}

pub open spec fn rule_metric<P>(rule: GateRule<P>) -> MetricKind {
    match rule {
        GateRule::Percent { metric, .. } => metric,
        GateRule::UncoveredCount { metric, .. } => metric,
    }
}

/// The command-line name of a rule, such as `fail-under-regions`.
pub open spec fn rule_label<P>(rule: GateRule<P>) -> Seq<char> {
    match rule {
        GateRule::Percent { metric, .. } => "fail-under-"@ + metric_label(metric),
        GateRule::UncoveredCount { metric, .. } => "fail-uncovered-"@ + metric_label(metric),
    }
}

impl<P: Copy> GateRule<P> {
    pub fn metric(&self) -> (m: MetricKind)
        ensures
            m == rule_metric(*self),
    {
        match self {
            GateRule::Percent { metric, .. } => *metric,
            GateRule::UncoveredCount { metric, .. } => *metric,
        }
    }

    pub fn label(&self) -> (s: String)
        ensures
            s@ == rule_label(*self),
    {
        let mut s = String::new();
        match self {
            GateRule::Percent { metric, .. } => {
                push_str(&mut s, "fail-under-");
                push_str(&mut s, metric.label());
            },
            GateRule::UncoveredCount { metric, .. } => {
                push_str(&mut s, "fail-uncovered-");
                push_str(&mut s, metric.label());
            },
        }
        assert(s@ =~= rule_label(*self));
        s
    }
}

/// The location part of a span, used to group and order spans within a file.
#[derive(Clone, Copy, Debug, PartialEq, Eq, PartialOrd, Ord, Hash, Structural)]
pub struct SpanKey {
    pub start_line: u32,
    pub end_line: u32,
    pub start_col: Option<u32>,
    pub end_col: Option<u32>,
}

/// `None` sorts before every `Some`, and `Some` values sort by their contents.
pub open spec fn opt_lt(a: Option<u32>, b: Option<u32>) -> bool {
    match (a, b) {
        (None, Some(_)) => true,
        (Some(x), Some(y)) => x < y,
        _ => false,
    }
}

/// The order of span keys: by start line, end line, start column, end column.
pub open spec fn span_key_lt(a: SpanKey, b: SpanKey) -> bool {
    ||| a.start_line < b.start_line
    ||| a.start_line == b.start_line && a.end_line < b.end_line
    ||| a.start_line == b.start_line && a.end_line == b.end_line && opt_lt(a.start_col, b.start_col)
    ||| a.start_line == b.start_line && a.end_line == b.end_line && a.start_col == b.start_col
        && opt_lt(a.end_col, b.end_col)
}

fn opt_less(a: Option<u32>, b: Option<u32>) -> (r: bool)
    ensures
        r == opt_lt(a, b),
{
    match (a, b) {
        (None, Some(_)) => true,
        (Some(x), Some(y)) => x < y,
        _ => false,
    }
}

/// Whether `a` sorts strictly before `b`.
pub fn span_key_less(a: SpanKey, b: SpanKey) -> (r: bool)
    ensures
        r == span_key_lt(a, b),
{
    if a.start_line != b.start_line {
        return a.start_line < b.start_line;
    }
    if a.end_line != b.end_line {
        return a.end_line < b.end_line;
    }
    if a.start_col != b.start_col {
        return opt_less(a.start_col, b.start_col);
    }
    opt_less(a.end_col, b.end_col)
}

/// The order on span keys is a strict total order.
pub proof fn lemma_span_key_order(a: SpanKey, b: SpanKey, c: SpanKey)
    ensures
        !span_key_lt(a, a),
        span_key_lt(a, b) && span_key_lt(b, c) ==> span_key_lt(a, c),
        span_key_lt(a, b) || span_key_lt(b, a) || a == b,
        span_key_lt(a, b) ==> !span_key_lt(b, a),
{
}

pub open spec fn seq_colon() -> Seq<char> {
    seq![':']
}

pub open spec fn seq_dash() -> Seq<char> {
    seq!['-']
}

/// The text of a span key: `L`, `L1-L2`, `L:C`, `L:C1-C2` or `L1:C1-L2:C2`.
pub open spec fn span_text(k: SpanKey) -> Seq<char> {
    let sl = decimal(k.start_line as nat);
    let el = decimal(k.end_line as nat);
    match (k.start_col, k.end_col) {
        (Some(sc), Some(ec)) => if k.start_line == k.end_line {
            if sc == ec {
                sl + seq_colon() + decimal(sc as nat)
            } else {
                sl + seq_colon() + decimal(sc as nat) + seq_dash() + decimal(ec as nat)
            }
        } else {
            sl + seq_colon() + decimal(sc as nat) + seq_dash() + el + seq_colon() + decimal(
                ec as nat,
            )
        },
        _ => if k.start_line == k.end_line {
            sl
        } else {
            sl + seq_dash() + el
        },
    }
}

impl SpanKey {
    pub fn format_span(&self) -> (s: String)
        ensures
            s@ == span_text(*self),
    {
        let mut s = decimal_string(self.start_line as u64);
        match (self.start_col, self.end_col) {
            (Some(s_col), Some(e_col)) => {
                s.push(':');
                crate::text::push_decimal(&mut s, s_col as u64);
                if self.start_line == self.end_line {
                    if s_col != e_col {
                        s.push('-');
                        crate::text::push_decimal(&mut s, e_col as u64);
                    }
                } else {
                    s.push('-');
                    crate::text::push_decimal(&mut s, self.end_line as u64);
                    s.push(':');
                    crate::text::push_decimal(&mut s, e_col as u64);
                }
            },
            _ => {
                if self.start_line != self.end_line {
                    s.push('-');
                    crate::text::push_decimal(&mut s, self.end_line as u64);
                }
            },
        }
        assert(s@ =~= span_text(*self));
        s
    }
}

/// A range of source lines in a file, with optional columns.
#[derive(Debug, PartialEq, Eq)]
pub struct SourceSpan {
    pub path: String,
    pub start_line: u32,
    pub end_line: u32,
    pub start_col: Option<u32>,
    pub end_col: Option<u32>,
}

pub open spec fn span_key_of(s: SourceSpan) -> SpanKey {
    SpanKey {
        start_line: s.start_line,
        end_line: s.end_line,
        start_col: s.start_col,
        end_col: s.end_col,
    }
}

/// Whether the line range of `s` shares a line with `[start, end]`.
pub open spec fn overlaps(s: SourceSpan, start: u32, end: u32) -> bool {
    s.start_line <= end && start <= s.end_line
}

/// How many spans of `spans` have the key `k`.
pub open spec fn count_key(spans: Seq<SourceSpan>, k: SpanKey) -> nat
    decreases spans.len(),
{
    if spans.len() == 0 {
        0
    } else {
        count_key(spans.drop_last(), k) + if span_key_of(spans.last()) == k {
            1nat
        } else {
            0nat
        }
    }
}

/// `groups` lists each key occurring in `spans` once, in increasing key order,
/// with the number of spans that have it.
pub open spec fn is_span_grouping(spans: Seq<SourceSpan>, groups: Seq<(SpanKey, usize)>) -> bool {
    &&& forall|i: int, j: int|
        0 <= i < j < groups.len() ==> span_key_lt(#[trigger] groups[i].0, #[trigger] groups[j].0)
    &&& forall|i: int|
        0 <= i < groups.len() ==> #[trigger] groups[i].1 as nat == count_key(spans, groups[i].0)
            && groups[i].1 > 0
    &&& forall|k: SpanKey|
        count_key(spans, k) > 0 ==> exists|i: int| 0 <= i < groups.len() && #[trigger] groups[i].0 == k
}

/// The sum of the counts of `groups`.
pub open spec fn group_total(groups: Seq<(SpanKey, usize)>) -> nat
    decreases groups.len(),
{
    if groups.len() == 0 {
        0
    } else {
        group_total(groups.drop_last()) + groups.last().1 as nat
    }
}

spec fn counted_sum(spans: Seq<SourceSpan>, groups: Seq<(SpanKey, usize)>) -> nat
    decreases groups.len(),
{
    if groups.len() == 0 {
        0
    } else {
        counted_sum(spans, groups.drop_last()) + count_key(spans, groups.last().0)
    }
}

spec fn key_hits(groups: Seq<(SpanKey, usize)>, k: SpanKey) -> nat
    decreases groups.len(),
{
    if groups.len() == 0 {
        0
    } else {
        key_hits(groups.drop_last(), k) + if groups.last().0 == k {
            1nat
        } else {
            0nat
        }
    }
}

proof fn lemma_counted_empty(spans: Seq<SourceSpan>, groups: Seq<(SpanKey, usize)>)
    requires
        spans.len() == 0,
    ensures
        counted_sum(spans, groups) == 0,
    decreases groups.len(),
{
    if groups.len() > 0 {
        lemma_counted_empty(spans, groups.drop_last());
    }
}

proof fn lemma_counted_step(spans: Seq<SourceSpan>, groups: Seq<(SpanKey, usize)>)
    requires
        spans.len() > 0,
    ensures
        counted_sum(spans, groups) == counted_sum(spans.drop_last(), groups) + key_hits(
            groups,
            span_key_of(spans.last()),
        ),
    decreases groups.len(),
{
    if groups.len() > 0 {
        lemma_counted_step(spans, groups.drop_last());
    }
}

proof fn lemma_hits_absent(groups: Seq<(SpanKey, usize)>, k: SpanKey)
    requires
        forall|i: int| 0 <= i < groups.len() ==> (#[trigger] groups[i]).0 != k,
    ensures
        key_hits(groups, k) == 0,
    decreases groups.len(),
{
    if groups.len() > 0 {
        assert(groups[groups.len() - 1] == groups.last());
        assert forall|i: int| 0 <= i < groups.drop_last().len() implies (#[trigger] groups.drop_last()[i]).0 != k by {
            assert(groups.drop_last()[i] == groups[i]);
        }
        lemma_hits_absent(groups.drop_last(), k);
    }
}

proof fn lemma_hits_once(groups: Seq<(SpanKey, usize)>, k: SpanKey)
    requires
        forall|i: int, j: int| 0 <= i < j < groups.len() ==> (#[trigger] groups[i]).0 != (#[trigger] groups[j]).0,
        exists|i: int| 0 <= i < groups.len() && (#[trigger] groups[i]).0 == k,
    ensures
        key_hits(groups, k) == 1,
    decreases groups.len(),
{
    let prev = groups.drop_last();
    let n = groups.len() - 1;
    assert forall|i: int, j: int| 0 <= i < j < prev.len() implies (#[trigger] prev[i]).0 != (#[trigger] prev[j]).0 by {
        assert(prev[i] == groups[i] && prev[j] == groups[j]);
    }
    if groups[n].0 == k {
        assert forall|i: int| 0 <= i < prev.len() implies (#[trigger] prev[i]).0 != k by {
            assert(prev[i] == groups[i]);
        }
        lemma_hits_absent(prev, k);
    } else {
        let w = choose|i: int| 0 <= i < groups.len() && (#[trigger] groups[i]).0 == k;
        assert(prev[w] == groups[w]);
        lemma_hits_once(prev, k);
    }
}

proof fn lemma_count_positive(spans: Seq<SourceSpan>, m: int)
    requires
        0 <= m < spans.len(),
    ensures
        count_key(spans, span_key_of(spans[m])) > 0,
    decreases spans.len(),
{
    if m < spans.len() - 1 {
        assert(spans.drop_last()[m] == spans[m]);
        lemma_count_positive(spans.drop_last(), m);
    }
}

proof fn lemma_counted_all(spans: Seq<SourceSpan>, groups: Seq<(SpanKey, usize)>)
    requires
        forall|i: int, j: int| 0 <= i < j < groups.len() ==> (#[trigger] groups[i]).0 != (#[trigger] groups[j]).0,
        forall|m: int|
            0 <= m < spans.len() ==> exists|i: int|
                0 <= i < groups.len() && (#[trigger] groups[i]).0 == span_key_of(#[trigger] spans[m]),
    ensures
        counted_sum(spans, groups) == spans.len(),
    decreases spans.len(),
{
    if spans.len() == 0 {
        lemma_counted_empty(spans, groups);
    } else {
        let prev = spans.drop_last();
        assert forall|m: int| 0 <= m < prev.len() implies exists|i: int|
            0 <= i < groups.len() && (#[trigger] groups[i]).0 == span_key_of(#[trigger] prev[m]) by {
            assert(prev[m] == spans[m]);
        }
        lemma_counted_all(prev, groups);
        lemma_counted_step(spans, groups);
        assert(spans[spans.len() - 1] == spans.last());
        lemma_hits_once(groups, span_key_of(spans.last()));
    }
}

proof fn lemma_total_counted(spans: Seq<SourceSpan>, groups: Seq<(SpanKey, usize)>)
    requires
        forall|i: int| 0 <= i < groups.len() ==> (#[trigger] groups[i]).1 as nat == count_key(spans, groups[i].0),
    ensures
        group_total(groups) == counted_sum(spans, groups),
    decreases groups.len(),
{
    if groups.len() > 0 {
        let prev = groups.drop_last();
        assert forall|i: int| 0 <= i < prev.len() implies (#[trigger] prev[i]).1 as nat == count_key(spans, prev[i].0) by {
            assert(prev[i] == groups[i]);
        }
        assert(groups[groups.len() - 1] == groups.last());
        lemma_total_counted(spans, prev);
    }
}

/// Grouping loses and duplicates no span: the counts of a grouping add up to the
/// number of spans.
pub proof fn lemma_grouping_counts_every_span(spans: Seq<SourceSpan>, groups: Seq<(SpanKey, usize)>)
    requires
        is_span_grouping(spans, groups),
    ensures
        group_total(groups) == spans.len(),
{
    assert forall|i: int, j: int| 0 <= i < j < groups.len() implies (#[trigger] groups[i]).0 != (
    #[trigger] groups[j]).0 by {
        lemma_span_key_order(groups[i].0, groups[j].0, groups[j].0);
    }
    assert forall|m: int| 0 <= m < spans.len() implies exists|i: int|
        0 <= i < groups.len() && (#[trigger] groups[i]).0 == span_key_of(#[trigger] spans[m]) by {
        lemma_count_positive(spans, m);
    }
    lemma_counted_all(spans, groups);
    lemma_total_counted(spans, groups);
}

impl Clone for SourceSpan {
    fn clone(&self) -> (r: Self)
        ensures
            r == *self,
    {
        SourceSpan {
            path: self.path.clone(),
            start_line: self.start_line,
            end_line: self.end_line,
            start_col: self.start_col,
            end_col: self.end_col,
        }
    }
}

impl SourceSpan {
    pub fn overlaps_line_range(&self, start: u32, end: u32) -> (r: bool)
        ensures
            r == overlaps(*self, start, end),
    {
        self.start_line <= end && start <= self.end_line
    }

    pub fn key(&self) -> (k: SpanKey)
        ensures
            k == span_key_of(*self),
    {
        SpanKey {
            start_line: self.start_line,
            end_line: self.end_line,
            start_col: self.start_col,
            end_col: self.end_col,
        }
    }

    pub fn format_span(&self) -> (s: String)
        ensures
            s@ == span_text(span_key_of(*self)),
    {
        self.key().format_span()
    }

    /// `path:span`.
    pub fn display(&self) -> (s: String)
        ensures
            s@ == self.path@ + seq_colon() + span_text(span_key_of(*self)),
    {
        let mut s = self.path.clone();
        s.push(':');
        let f = self.format_span();
        push_str(&mut s, f.as_str());
        s
    }

    /// Counts the spans per key, listing keys in increasing order.
    pub fn group_by_span(spans: &[SourceSpan]) -> (groups: Vec<(SpanKey, usize)>)
        ensures
            is_span_grouping(spans@, groups@),
    {
        let mut groups: Vec<(SpanKey, usize)> = Vec::new();
        let mut i: usize = 0;
        while i < spans.len()
            invariant
                i <= spans@.len(),
                is_span_grouping(spans@.subrange(0, i as int), groups@),
                forall|j: int| 0 <= j < groups@.len() ==> #[trigger] groups@[j].1 <= i,
            decreases spans@.len() - i,
        {
            let ghost prefix = spans@.subrange(0, i as int);
            let ghost next = spans@.subrange(0, i + 1);
            assert(next.drop_last() =~= prefix);
            assert(next.last() == spans@[i as int]);
            let k = spans[i].key();
            let mut p: usize = 0;
            while p < groups.len() && span_key_less(groups[p].0, k)
                invariant
                    p <= groups@.len(),
                    forall|j: int| 0 <= j < p ==> span_key_lt(#[trigger] groups@[j].0, k),
                decreases groups@.len() - p,
            {
                p = p + 1;
            }
            let ghost old_groups = groups@;
            proof {
                assert forall|kk: SpanKey| kk != k implies count_key(next, kk) == count_key(
                    prefix,
                    kk,
                ) by {}
                assert(count_key(next, k) == count_key(prefix, k) + 1);
            }
            if p < groups.len() && groups[p].0 == k {
                let c = groups[p].1;
                groups.set(p, (k, c + 1));
                proof {
                    assert forall|kk: SpanKey| count_key(next, kk) > 0 implies exists|j: int|
                        0 <= j < groups@.len() && #[trigger] groups@[j].0 == kk by {
                        if kk == k {
                            assert(groups@[p as int].0 == kk);
                        } else {
                            let j = choose|j: int|
                                0 <= j < old_groups.len() && #[trigger] old_groups[j].0 == kk;
                            assert(groups@[j].0 == kk);
                        }
                    }
                    assert forall|j: int| 0 <= j < groups@.len() implies #[trigger] groups@[j].1
                        as nat == count_key(next, groups@[j].0) && groups@[j].1 > 0 by {
                        if j != p {
                            assert(groups@[j] == old_groups[j]);
                            assert(old_groups[j].0 != k) by {
                                if j < p {
                                } else {
                                    lemma_span_key_order(k, old_groups[j].0, k);
                                    assert(span_key_lt(old_groups[p as int].0, old_groups[j].0));
                                }
                            }
                        }
                    }
                }
            } else {
                proof {
                    if p < groups.len() {
                        lemma_span_key_order(groups@[p as int].0, k, k);
                    }
                    assert(count_key(prefix, k) == 0) by {
                        if count_key(prefix, k) > 0 {
                            let j = choose|j: int|
                                0 <= j < old_groups.len() && #[trigger] old_groups[j].0 == k;
                            if j < p {
                                lemma_span_key_order(k, k, k);
                            } else if j > p {
                                assert(span_key_lt(old_groups[p as int].0, old_groups[j].0));
                                lemma_span_key_order(k, old_groups[p as int].0, k);
                            }
                        }
                    }
                }
                groups.insert(p, (k, 1));
                proof {
                    assert forall|a: int, b: int|
                        0 <= a < b < groups@.len() implies span_key_lt(
                        #[trigger] groups@[a].0,
                        #[trigger] groups@[b].0,
                    ) by {
                        if a < p && b == p {
                        } else if a < p && b > p {
                            assert(groups@[b] == old_groups[b - 1]);
                            if b - 1 == p {
                                lemma_span_key_order(groups@[a].0, k, old_groups[b - 1].0);
                            } else {
                                lemma_span_key_order(groups@[a].0, k, old_groups[p as int].0);
                                lemma_span_key_order(
                                    groups@[a].0,
                                    old_groups[p as int].0,
                                    old_groups[b - 1].0,
                                );
                            }
                        } else if a == p {
                            assert(groups@[b] == old_groups[b - 1]);
                            if b - 1 > p {
                                lemma_span_key_order(k, old_groups[p as int].0, old_groups[b - 1].0);
                            }
                            lemma_span_key_order(k, old_groups[p as int].0, k);
                        } else if a > p {
                            assert(groups@[a] == old_groups[a - 1]);
                            assert(groups@[b] == old_groups[b - 1]);
                        } else {
                            assert(groups@[a] == old_groups[a]);
                            assert(groups@[b] == old_groups[b]);
                        }
                    }
                    assert forall|kk: SpanKey| count_key(next, kk) > 0 implies exists|j: int|
                        0 <= j < groups@.len() && #[trigger] groups@[j].0 == kk by {
                        if kk == k {
                            assert(groups@[p as int].0 == kk);
                        } else {
                            let j = choose|j: int|
                                0 <= j < old_groups.len() && #[trigger] old_groups[j].0 == kk;
                            if j < p {
                                assert(groups@[j].0 == kk);
                            } else {
                                assert(groups@[j + 1].0 == kk);
                            }
                        }
                    }
                    assert forall|j: int| 0 <= j < groups@.len() implies #[trigger] groups@[j].1
                        as nat == count_key(next, groups@[j].0) && groups@[j].1 > 0 by {
                        if j < p {
                            assert(groups@[j] == old_groups[j]);
                        } else if j > p {
                            assert(groups@[j] == old_groups[j - 1]);
                            if j - 1 == p {
                                lemma_span_key_order(k, old_groups[p as int].0, k);
                            } else {
                                lemma_span_key_order(k, old_groups[p as int].0, old_groups[j - 1].0);
                                lemma_span_key_order(k, old_groups[j - 1].0, k);
                            }
                        }
                    }
                }
            }
            i = i + 1;
        }
        assert(spans@.subrange(0, spans@.len() as int) =~= spans@);
        groups
    }
}

/// One measurable coverage opportunity: a region, line, branch outcome or function.
#[derive(Debug, PartialEq, Eq)]
pub struct CoverageOpportunity {
    pub kind: OpportunityKind,
    pub span: SourceSpan,
    pub covered: bool,
    pub is_named_function: Option<bool>,
    pub named_function_identity: Option<String>,
}

impl Clone for CoverageOpportunity {
    fn clone(&self) -> (r: Self)
        ensures
            r == *self,
    {
        CoverageOpportunity {
            kind: self.kind,
            span: self.span.clone(),
            covered: self.covered,
            is_named_function: self.is_named_function,
            named_function_identity: match &self.named_function_identity {
                Some(s) => Some(s.clone()),
                None => None,
            },
        }
    }
}

/// Covered and total opportunity counts.
#[derive(Clone, Copy, Debug, PartialEq, Eq, Structural)]
pub struct FileTotals {
    pub covered: usize,
    pub total: usize,
}

/// Per-file totals, one entry per path.
pub type FileTotalsList = Vec<(String, FileTotals)>;

/// A parsed coverage report: every opportunity, and per-metric per-file totals.
#[derive(Debug, PartialEq, Eq)]
pub struct CoverageReport {
    pub opportunities: Vec<CoverageOpportunity>,
    pub totals_by_file: Vec<(MetricKind, FileTotalsList)>,
}

/// A contiguous range of changed lines, both ends included.
#[derive(Clone, Copy, Debug, PartialEq, Eq, Structural)]
pub struct LineRange {
    pub start: u32,
    pub end: u32,
}

/// The changed line ranges of one file.
#[derive(Debug, PartialEq, Eq)]
pub struct ChangedFile {
    pub path: String,
    pub changed_lines: Vec<LineRange>,
}

impl Clone for ChangedFile {
    fn clone(&self) -> (r: Self)
        ensures
            r.path == self.path,
            r.changed_lines@ == self.changed_lines@,
    {
        ChangedFile { path: self.path.clone(), changed_lines: self.changed_lines.clone() }
    }
}

/// A metric computed over a set of files: counts, the uncovered changed
/// opportunities, and per-file totals. The coverage percentage is
/// `covered / total * 100`, or 100 when `total` is zero.
#[derive(Debug, PartialEq)]
pub struct ComputedMetric {
    pub metric: MetricKind,
    pub covered: usize,
    pub total: usize,
    pub uncovered_changed_opportunities: Vec<CoverageOpportunity>,
    pub changed_totals_by_file: FileTotalsList,
    pub totals_by_file: FileTotalsList,
}

/// The outcome of one rule of a gate.
#[derive(Clone, Debug, PartialEq)]
pub struct RuleOutcome<P> {
    pub rule: GateRule<P>,
    pub passed: bool,
    pub observed_covered_count: usize,
    pub observed_total_count: usize,
    pub observed_uncovered_count: usize,
}

/// The evaluation of one gate: its label and each rule's outcome.
#[derive(Debug, PartialEq)]
pub struct GateEvaluation<P> {
    pub label: Option<String>,
    pub rules: Vec<RuleOutcome<P>>,
    pub passed: bool,
}

/// The result of a check run: each gate's evaluation, the changed and overall
/// metrics of the report, and whether every gate passed.
#[derive(Debug, PartialEq)]
pub struct CheckResult<P> {
    pub gates: Vec<GateEvaluation<P>>,
    pub changed_metrics: Vec<ComputedMetric>,
    pub overall_metrics: Vec<ComputedMetric>,
    pub passed: bool,
}

/// An opportunity as plain values: kind, path, start and end line, start and end
/// column, whether it is covered, whether it is a named function, and its identity.
pub type OpportunityView = (
    OpportunityKind,
    Seq<char>,
    u32,
    u32,
    Option<u32>,
    Option<u32>,
    bool,
    Option<bool>,
    Option<Seq<char>>,
);

pub open spec fn opportunity_view(o: CoverageOpportunity) -> OpportunityView {
    (
        o.kind,
        o.span.path@,
        o.span.start_line,
        o.span.end_line,
        o.span.start_col,
        o.span.end_col,
        o.covered,
        o.is_named_function,
        match o.named_function_identity {
            Some(s) => Some(s@),
            None => None,
        },
    )
}

pub open spec fn opportunity_views(s: Seq<CoverageOpportunity>) -> Seq<OpportunityView> {
    s.map_values(|o: CoverageOpportunity| opportunity_view(o))
}

} // verus!
