//! Gate evaluation: checking each rule of a gate against the computed metrics.
use vstd::prelude::*;

use crate::error::CovgateError;
use crate::model::{metric_name, rule_metric, ComputedMetric, GateEvaluation, GateRule, RuleOutcome};
use crate::text::{push_chars, push_str};

verus! {

/// The index of the first metric of kind `m`, if any.
pub open spec fn metric_index(metrics: Seq<ComputedMetric>, m: crate::model::MetricKind) -> Option<int>
    decreases metrics.len(),
{
    if metrics.len() == 0 {
        None
    } else {
        match metric_index(metrics.drop_last(), m) {
            Some(i) => Some(i),
            None => if metrics.last().metric == m {
                Some(metrics.len() - 1)
            } else {
                None
            },
        }
    }
}

pub proof fn lemma_metric_index(metrics: Seq<ComputedMetric>, m: crate::model::MetricKind)
    ensures
        match metric_index(metrics, m) {
            Some(i) => 0 <= i < metrics.len() && metrics[i].metric == m && forall|j: int|
                0 <= j < i ==> metrics[j].metric != m,
            None => forall|j: int| 0 <= j < metrics.len() ==> metrics[j].metric != m,
        },
    decreases metrics.len(),
{
    if metrics.len() > 0 {
        let prev = metrics.drop_last();
        lemma_metric_index(prev, m);
        assert forall|j: int| 0 <= j < prev.len() implies prev[j] == metrics[j] by {}
    }
}

/// The message for a rule whose metric the report does not carry.
pub open spec fn unsupported_message(m: crate::model::MetricKind, label: Option<String>) -> Seq<char> {
    let base = "configured rule for "@ + metric_name(m) + " is not supported by the loaded report"@;
    match label {
        Some(l) => base + " in gate `"@ + l@ + "`"@,
        None => base,
    }
}

/// Every rule's metric is among the computed metrics.
pub open spec fn all_rules_supported<P>(metrics: Seq<ComputedMetric>, rules: Seq<GateRule<P>>) -> bool {
    forall|i: int| 0 <= i < rules.len() ==> metric_index(metrics, rule_metric(#[trigger] rules[i])) is Some
}

/// The index of the first rule whose metric is missing.
pub open spec fn first_unsupported<P>(metrics: Seq<ComputedMetric>, rules: Seq<GateRule<P>>) -> int {
    choose|i: int|
        0 <= i < rules.len() && metric_index(metrics, rule_metric(rules[i])) is None && forall|j: int|
            0 <= j < i ==> metric_index(metrics, rule_metric(#[trigger] rules[j])) is Some
}

/// `o` is the outcome of `rule` against `m`; percent rules are decided by `percent_met`.
pub open spec fn is_rule_outcome<P, F: Fn(usize, usize, P) -> bool>(
    rule: GateRule<P>,
    m: ComputedMetric,
    percent_met: F,
    o: RuleOutcome<P>,
) -> bool {
    &&& o.rule == rule
    &&& o.observed_covered_count == m.covered
    &&& o.observed_total_count == m.total
    &&& o.observed_uncovered_count == m.uncovered_changed_opportunities@.len()
    &&& match rule {
        GateRule::Percent { minimum_percent, .. } => call_ensures(
            percent_met,
            (m.covered, m.total, minimum_percent),
            o.passed,
        ),
        GateRule::UncoveredCount { maximum_count, .. } => o.passed == (
        m.uncovered_changed_opportunities@.len() <= maximum_count),
    }
}

fn unsupported_error(m: crate::model::MetricKind, label: &Option<String>) -> (e: CovgateError)
    ensures
        e.message@ == unsupported_message(m, *label),
{
    let mut msg = String::new();
    push_str(&mut msg, "configured rule for ");
    push_str(&mut msg, m.as_str());
    push_str(&mut msg, " is not supported by the loaded report");
    match label {
        Some(l) => {
            push_str(&mut msg, " in gate `");
            push_str(&mut msg, l.as_str());
            push_str(&mut msg, "`");
        },
        None => {},
    }
    assert(msg@ =~= unsupported_message(m, *label));
    CovgateError { message: msg }
}

/// Evaluates each rule against the metric of its kind. A percent rule passes when
/// `percent_met(covered, total, minimum)` says so; an uncovered-count rule passes
/// when the number of uncovered changed opportunities is at most its maximum.
/// A gate passes when every rule passes. Fails on the first rule whose metric
/// is missing from `metrics`.
pub fn evaluate<P: Copy, F: Fn(usize, usize, P) -> bool>(
    label: Option<String>,
    metrics: Vec<ComputedMetric>,
    rules: &[GateRule<P>],
    percent_met: &F,
) -> (r: Result<GateEvaluation<P>, CovgateError>)
    requires
        forall|c: usize, t: usize, p: P| call_requires(*percent_met, (c, t, p)),
    ensures
        all_rules_supported(metrics@, rules@) ==> (r matches Ok(g) && {
            &&& g.label == label
            &&& g.rules@.len() == rules@.len()
            &&& forall|i: int|
                0 <= i < rules@.len() ==> #[trigger] is_rule_outcome(
                    rules@[i],
                    metrics@[metric_index(metrics@, rule_metric(rules@[i]))->Some_0],
                    *percent_met,
                    g.rules@[i],
                )
            &&& g.passed == (forall|i: int| 0 <= i < g.rules@.len() ==> #[trigger] g.rules@[i].passed)
        }),
        !all_rules_supported(metrics@, rules@) ==> (r matches Err(e) && e.message@
            == unsupported_message(rule_metric(rules@[first_unsupported(metrics@, rules@)]), label)),
{
    let mut outcomes: Vec<RuleOutcome<P>> = Vec::new();
    let mut all_passed = true;
    let mut i: usize = 0;
    while i < rules.len()
        invariant
            i <= rules@.len(),
            forall|c: usize, t: usize, p: P| call_requires(*percent_met, (c, t, p)),
            outcomes@.len() == i,
            forall|j: int| 0 <= j < i ==> metric_index(metrics@, rule_metric(#[trigger] rules@[j])) is Some,
            forall|j: int|
                0 <= j < i ==> #[trigger] is_rule_outcome(
                    rules@[j],
                    metrics@[metric_index(metrics@, rule_metric(rules@[j]))->Some_0],
                    *percent_met,
                    outcomes@[j],
                ),
            all_passed == (forall|j: int| 0 <= j < i ==> #[trigger] outcomes@[j].passed),
        decreases rules@.len() - i,
    {
        let rule = rules[i];
        let want = rule.metric();
        let mut k: usize = 0;
        while k < metrics.len() && metrics[k].metric != want
            invariant
                k <= metrics@.len(),
                forall|j: int| 0 <= j < k ==> metrics@[j].metric != want,
            decreases metrics@.len() - k,
        {
            k = k + 1;
        }
        proof {
            lemma_metric_index(metrics@, want);
        }
        if k == metrics.len() {
            proof {
                let f = first_unsupported(metrics@, rules@);
                assert(metric_index(metrics@, rule_metric(rules@[i as int])) is None) by {
                    match metric_index(metrics@, want) {
                        Some(x) => {
                            assert(metrics@[x].metric == want);
                        },
                        None => {},
                    }
                }
                assert(!all_rules_supported(metrics@, rules@));
                assert(f == i) by {
                    let w = i as int;
                    assert(0 <= w < rules@.len() && metric_index(metrics@, rule_metric(rules@[w])) is None && forall|j: int|
                        0 <= j < w ==> metric_index(metrics@, rule_metric(#[trigger] rules@[j])) is Some);
                    let f2 = first_unsupported(metrics@, rules@);
                    if f2 < w {
                        assert(metric_index(metrics@, rule_metric(rules@[f2])) is Some);
                    } else if f2 > w {
                        assert(metric_index(metrics@, rule_metric(rules@[w])) is Some);
                    }
                }
            }
            return Err(unsupported_error(want, &label));
        }
        let m = &metrics[k];
        proof {
            match metric_index(metrics@, want) {
                Some(x) => {
                    if x < k {
                        assert(metrics@[x].metric != want);
                    } else if x > k {
                        assert(metrics@[k as int].metric != want);
                    }
                },
                None => {
                    assert(metrics@[k as int].metric == want);
                },
            }
        }
        let uncovered_count = m.uncovered_changed_opportunities.len();
        let passed = match rule {
            GateRule::Percent { minimum_percent, .. } => percent_met(m.covered, m.total, minimum_percent),
            GateRule::UncoveredCount { maximum_count, .. } => uncovered_count <= maximum_count,
        };
        let outcome = RuleOutcome {
            rule,
            passed,
            observed_covered_count: m.covered,
            observed_total_count: m.total,
            observed_uncovered_count: uncovered_count,
        };
        let ghost before = outcomes@;
        outcomes.push(outcome);
        assert(forall|j: int| 0 <= j < i ==> outcomes@[j] == before[j]);
        if !passed {
            all_passed = false;
        }
        i = i + 1;
        proof {
            assert(outcomes@[i - 1].passed == passed);
            if all_passed {
                assert forall|j: int| 0 <= j < i implies #[trigger] outcomes@[j].passed by {
                    if j < i - 1 {
                        assert(before[j].passed);
                    }
                }
            } else {
                if passed {
                    let w = choose|j: int| 0 <= j < i - 1 && !#[trigger] before[j].passed;
                    assert(!outcomes@[w].passed);
                }
            }
        }
    }
    Ok(GateEvaluation { label, rules: outcomes, passed: all_passed })
}

} // verus!
