//! Configuration: command-line arguments, `covgate.toml` settings, and how they
//! combine into gates and a diff source.
use vstd::prelude::*;

use crate::diff::DiffSource;
use crate::error::CovgateError;
use crate::model::{metric_rank, GateRule, MetricKind};
use crate::text::{chars_of, decimal, push_chars, push_decimal, push_str, string_from_chars};

verus! {

/// The name of the repository configuration file.
pub open spec fn config_file_name() -> Seq<char> {
    "covgate.toml"@
}

/// The `check` command's arguments. Percentage thresholds are of type `P`.
#[derive(Debug)]
pub struct Args<P> {
    pub coverage_report: String,
    pub base: Option<String>,
    pub diff_file: Option<String>,
    pub fail_under_regions: Option<P>,
    pub fail_under_lines: Option<P>,
    pub fail_under_branches: Option<P>,
    pub fail_under_functions: Option<P>,
    pub fail_under_named_functions: Option<P>,
    pub fail_uncovered_regions: Option<usize>,
    pub fail_uncovered_lines: Option<usize>,
    pub fail_uncovered_branches: Option<usize>,
    pub fail_uncovered_functions: Option<usize>,
    pub fail_uncovered_named_functions: Option<usize>,
    pub markdown_output: Option<String>,
    pub verbose: bool,
}

/// The rule settings of one `[[gates]]` entry.
#[derive(Debug, Clone, Copy)]
pub struct GateRuleConfig<P> {
    pub fail_under_regions: Option<P>,
    pub fail_under_lines: Option<P>,
    pub fail_under_branches: Option<P>,
    pub fail_under_functions: Option<P>,
    pub fail_under_named_functions: Option<P>,
    pub fail_uncovered_regions: Option<usize>,
    pub fail_uncovered_lines: Option<usize>,
    pub fail_uncovered_branches: Option<usize>,
    pub fail_uncovered_functions: Option<usize>,
    pub fail_uncovered_named_functions: Option<usize>,
}

/// One `[[gates]]` entry: an optional name, include and exclude patterns, and rules.
/// An entry without include patterns is the fallback gate.
#[derive(Debug)]
pub struct GateEntryConfig<P> {
    pub name: Option<String>,
    pub includes: Vec<String>,
    pub excludes: Vec<String>,
    pub rules: GateRuleConfig<P>,
}

/// The contents of `covgate.toml`.
#[derive(Debug)]
pub struct FileConfig<P> {
    pub base: Option<String>,
    pub markdown_output: Option<String>,
    pub verbose: Option<bool>,
    pub gates: Vec<GateEntryConfig<P>>,
}

/// The first present value of command line, gate entry and fallback entry.
pub open spec fn pick<T>(cli: Option<T>, cfg: Option<T>, fallback: Option<T>) -> Option<T> {
    if cli is Some {
        cli
    } else if cfg is Some {
        cfg
    } else {
        fallback
    }
}

pub open spec fn push_opt<T>(s: Seq<T>, o: Option<T>) -> Seq<T> {
    match o {
        Some(x) => s.push(x),
        None => s,
    }
}

pub open spec fn percent_rule<P>(metric: MetricKind, o: Option<P>) -> Option<GateRule<P>> {
    match o {
        Some(v) => Some(GateRule::Percent { metric, minimum_percent: v }),
        None => None,
    }
}

pub open spec fn uncovered_rule<P>(metric: MetricKind, o: Option<usize>) -> Option<GateRule<P>> {
    match o {
        Some(v) => Some(GateRule::UncoveredCount { metric, maximum_count: v }),
        None => None,
    }
}

pub open spec fn when<T>(allow: bool, o: Option<T>) -> Option<T> {
    if allow {
        o
    } else {
        None
    }
}

/// The metric of the `i`-th rule kind, in declaration order.
pub open spec fn metric_at(i: nat) -> MetricKind {
    if i == 0 {
        MetricKind::Region
    } else if i == 1 {
        MetricKind::Line
    } else if i == 2 {
        MetricKind::Branch
    } else if i == 3 {
        MetricKind::Function
    } else {
        MetricKind::NamedFunction
    }
}

/// The command-line percentage threshold for `m`.
pub open spec fn cli_percent<P>(args: Args<P>, m: MetricKind) -> Option<P> {
    match m {
        MetricKind::Region => args.fail_under_regions,
        MetricKind::Line => args.fail_under_lines,
        MetricKind::Branch => args.fail_under_branches,
        MetricKind::Function => args.fail_under_functions,
        MetricKind::NamedFunction => args.fail_under_named_functions,
    }
}

/// The command-line uncovered-count threshold for `m`.
pub open spec fn cli_uncovered<P>(args: Args<P>, m: MetricKind) -> Option<usize> {
    match m {
        MetricKind::Region => args.fail_uncovered_regions,
        MetricKind::Line => args.fail_uncovered_lines,
        MetricKind::Branch => args.fail_uncovered_branches,
        MetricKind::Function => args.fail_uncovered_functions,
        MetricKind::NamedFunction => args.fail_uncovered_named_functions,
    }
}

/// The percentage threshold for `m` in a gate entry's settings, if any.
pub open spec fn config_percent<P>(c: Option<GateRuleConfig<P>>, m: MetricKind) -> Option<P> {
    match c {
        Some(c) => match m {
            MetricKind::Region => c.fail_under_regions,
            MetricKind::Line => c.fail_under_lines,
            MetricKind::Branch => c.fail_under_branches,
            MetricKind::Function => c.fail_under_functions,
            MetricKind::NamedFunction => c.fail_under_named_functions,
        },
        None => None,
    }
}

/// The uncovered-count threshold for `m` in a gate entry's settings, if any.
pub open spec fn config_uncovered<P>(c: Option<GateRuleConfig<P>>, m: MetricKind) -> Option<usize> {
    match c {
        Some(c) => match m {
            MetricKind::Region => c.fail_uncovered_regions,
            MetricKind::Line => c.fail_uncovered_lines,
            MetricKind::Branch => c.fail_uncovered_branches,
            MetricKind::Function => c.fail_uncovered_functions,
            MetricKind::NamedFunction => c.fail_uncovered_named_functions,
        },
        None => None,
    }
}

/// The rule of slot `k` of a gate: slots 0 to 4 are the percentage rules and
/// slots 5 to 9 the uncovered-count rules, each in metric order. A slot holds the
/// command-line value when allowed, else that gate entry's value, else the
/// fallback entry's value, and no rule when none of them is present.
pub open spec fn slot_rule<P>(
    args: Args<P>,
    fallback: Option<GateRuleConfig<P>>,
    gate: Option<GateRuleConfig<P>>,
    allow_cli: bool,
    k: nat,
) -> Option<GateRule<P>> {
    if k < 5 {
        let m = metric_at(k);
        percent_rule(m, pick(when(allow_cli, cli_percent(args, m)), config_percent(gate, m), config_percent(fallback, m)))
    } else {
        let m = metric_at((k - 5) as nat);
        uncovered_rule(
            m,
            pick(when(allow_cli, cli_uncovered(args, m)), config_uncovered(gate, m), config_uncovered(fallback, m)),
        )
    }
}

/// The rules of the first `k` slots of a gate.
pub open spec fn rules_upto<P>(
    args: Args<P>,
    fallback: Option<GateRuleConfig<P>>,
    gate: Option<GateRuleConfig<P>>,
    allow_cli: bool,
    k: nat,
) -> Seq<GateRule<P>>
    decreases k,
{
    if k == 0 {
        seq![]
    } else {
        push_opt(rules_upto(args, fallback, gate, allow_cli, (k - 1) as nat), slot_rule(args, fallback, gate, allow_cli, (k - 1) as nat))
    }
}

/// The rules of a gate: for each percentage metric and then each uncovered-count
/// metric (regions, lines, branches, functions, named functions), the command-line
/// value when allowed, else that gate entry's value, else the fallback entry's value.
pub open spec fn resolved_rules<P>(
    args: Args<P>,
    fallback: Option<GateRuleConfig<P>>,
    gate: Option<GateRuleConfig<P>>,
    allow_cli: bool,
) -> Seq<GateRule<P>> {
    rules_upto(args, fallback, gate, allow_cli, 10)
}

fn first_some<T: Copy>(cli: Option<T>, cfg: Option<T>, fallback: Option<T>) -> (r: Option<T>)
    ensures
        r == pick(cli, cfg, fallback),
{
    match cli {
        Some(v) => Some(v),
        None => match cfg {
            Some(v) => Some(v),
            None => fallback,
        },
    }
}

/// Appends a percentage rule for `metric` when one of the values is present.
pub fn push_percent_rule<P: Copy>(
    configured: &mut Vec<GateRule<P>>,
    metric: MetricKind,
    fallback_value: Option<P>,
    config_value: Option<P>,
    cli_value: Option<P>,
)
    ensures
        final(configured)@ == push_opt(
            old(configured)@,
            percent_rule(metric, pick(cli_value, config_value, fallback_value)),
        ),
{
    if let Some(minimum_percent) = first_some(cli_value, config_value, fallback_value) {
        configured.push(GateRule::Percent { metric, minimum_percent });
    }
}

/// Appends an uncovered-count rule for `metric` when one of the values is present.
pub fn push_uncovered_rule<P: Copy>(
    configured: &mut Vec<GateRule<P>>,
    metric: MetricKind,
    fallback_value: Option<usize>,
    config_value: Option<usize>,
    cli_value: Option<usize>,
)
    ensures
        final(configured)@ == push_opt(
            old(configured)@,
            uncovered_rule::<P>(metric, pick(cli_value, config_value, fallback_value)),
        ),
{
    if let Some(maximum_count) = first_some(cli_value, config_value, fallback_value) {
        configured.push(GateRule::UncoveredCount { metric, maximum_count });
    }
}

fn allowed<T: Copy>(allow: bool, o: Option<T>) -> (r: Option<T>)
    ensures
        r == when(allow, o),
{
    if allow {
        o
    } else {
        None
    }
}

/// The rules of one gate, from the command line (when `allow_cli_overrides`),
/// that gate's own settings and the fallback settings, in that precedence.
pub fn resolve_gate_rules<P: Copy>(
    args: &Args<P>,
    fallback_config: Option<&GateRuleConfig<P>>,
    gate_config: Option<&GateRuleConfig<P>>,
    allow_cli_overrides: bool,
) -> (r: Vec<GateRule<P>>)
    ensures
        r@ == resolved_rules(
            *args,
            match fallback_config {
                Some(c) => Some(*c),
                None => None,
            },
            match gate_config {
                Some(c) => Some(*c),
                None => None,
            },
            allow_cli_overrides,
        ),
{
    let f: GateRuleConfig<P> = match fallback_config {
        Some(c) => *c,
        None => GateRuleConfig {
            fail_under_regions: None,
            fail_under_lines: None,
            fail_under_branches: None,
            fail_under_functions: None,
            fail_under_named_functions: None,
            fail_uncovered_regions: None,
            fail_uncovered_lines: None,
            fail_uncovered_branches: None,
            fail_uncovered_functions: None,
            fail_uncovered_named_functions: None,
        },
    };
    let g: GateRuleConfig<P> = match gate_config {
        Some(c) => *c,
        None => GateRuleConfig {
            fail_under_regions: None,
            fail_under_lines: None,
            fail_under_branches: None,
            fail_under_functions: None,
            fail_under_named_functions: None,
            fail_uncovered_regions: None,
            fail_uncovered_lines: None,
            fail_uncovered_branches: None,
            fail_uncovered_functions: None,
            fail_uncovered_named_functions: None,
        },
    };
    let a = allow_cli_overrides;
    let ghost fo = match fallback_config {
        Some(c) => Some(*c),
        None => None,
    };
    let ghost go = match gate_config {
        Some(c) => Some(*c),
        None => None,
    };
    let mut configured: Vec<GateRule<P>> = Vec::new();
    assert(configured@ =~= rules_upto(*args, fo, go, a, 0));
    push_percent_rule(&mut configured, MetricKind::Region, f.fail_under_regions, g.fail_under_regions, allowed(a, args.fail_under_regions));
    assert(configured@ == rules_upto(*args, fo, go, a, 1));
    push_percent_rule(&mut configured, MetricKind::Line, f.fail_under_lines, g.fail_under_lines, allowed(a, args.fail_under_lines));
    assert(configured@ == rules_upto(*args, fo, go, a, 2));
    push_percent_rule(&mut configured, MetricKind::Branch, f.fail_under_branches, g.fail_under_branches, allowed(a, args.fail_under_branches));
    assert(configured@ == rules_upto(*args, fo, go, a, 3));
    push_percent_rule(&mut configured, MetricKind::Function, f.fail_under_functions, g.fail_under_functions, allowed(a, args.fail_under_functions));
    assert(configured@ == rules_upto(*args, fo, go, a, 4));
    push_percent_rule(&mut configured, MetricKind::NamedFunction, f.fail_under_named_functions, g.fail_under_named_functions, allowed(a, args.fail_under_named_functions));
    assert(configured@ == rules_upto(*args, fo, go, a, 5));
    push_uncovered_rule(&mut configured, MetricKind::Region, f.fail_uncovered_regions, g.fail_uncovered_regions, allowed(a, args.fail_uncovered_regions));
    assert(configured@ == rules_upto(*args, fo, go, a, 6));
    push_uncovered_rule(&mut configured, MetricKind::Line, f.fail_uncovered_lines, g.fail_uncovered_lines, allowed(a, args.fail_uncovered_lines));
    assert(configured@ == rules_upto(*args, fo, go, a, 7));
    push_uncovered_rule(&mut configured, MetricKind::Branch, f.fail_uncovered_branches, g.fail_uncovered_branches, allowed(a, args.fail_uncovered_branches));
    assert(configured@ == rules_upto(*args, fo, go, a, 8));
    push_uncovered_rule(&mut configured, MetricKind::Function, f.fail_uncovered_functions, g.fail_uncovered_functions, allowed(a, args.fail_uncovered_functions));
    assert(configured@ == rules_upto(*args, fo, go, a, 9));
    push_uncovered_rule(&mut configured, MetricKind::NamedFunction, f.fail_uncovered_named_functions, g.fail_uncovered_named_functions, allowed(a, args.fail_uncovered_named_functions));
    assert(configured@ == rules_upto(*args, fo, go, a, 10));
    configured
}

/// The minimum percentage of the last percentage rule for `m` in `rules`.
pub open spec fn percent_value<P>(rules: Seq<GateRule<P>>, m: MetricKind) -> Option<P>
    decreases rules.len(),
{
    if rules.len() == 0 {
        None
    } else {
        match rules.last() {
            GateRule::Percent { metric, minimum_percent } => if metric == m {
                Some(minimum_percent)
            } else {
                percent_value(rules.drop_last(), m)
            },
            _ => percent_value(rules.drop_last(), m),
        }
    }
}

/// The maximum count of the last uncovered-count rule for `m` in `rules`.
pub open spec fn uncovered_value<P>(rules: Seq<GateRule<P>>, m: MetricKind) -> Option<usize>
    decreases rules.len(),
{
    if rules.len() == 0 {
        None
    } else {
        match rules.last() {
            GateRule::UncoveredCount { metric, maximum_count } => if metric == m {
                Some(maximum_count)
            } else {
                uncovered_value(rules.drop_last(), m)
            },
            _ => uncovered_value(rules.drop_last(), m),
        }
    }
}

/// The place of a rule in the order in which a gate lists them: percentage rules
/// first, then uncovered-count rules, each in metric order.
pub open spec fn rule_slot<P>(rule: GateRule<P>) -> nat {
    match rule {
        GateRule::Percent { metric, .. } => metric_rank(metric),
        GateRule::UncoveredCount { metric, .. } => 5 + metric_rank(metric),
    }
}

proof fn lemma_rules_upto<P>(
    args: Args<P>,
    fallback: Option<GateRuleConfig<P>>,
    gate: Option<GateRuleConfig<P>>,
    allow_cli: bool,
    m: MetricKind,
    k: nat,
)
    requires
        k <= 10,
    ensures
        forall|i: int, j: int|
            0 <= i < j < rules_upto(args, fallback, gate, allow_cli, k).len() ==> rule_slot(
                #[trigger] rules_upto(args, fallback, gate, allow_cli, k)[i],
            ) < rule_slot(#[trigger] rules_upto(args, fallback, gate, allow_cli, k)[j]),
        forall|i: int|
            0 <= i < rules_upto(args, fallback, gate, allow_cli, k).len() ==> rule_slot(
                #[trigger] rules_upto(args, fallback, gate, allow_cli, k)[i],
            ) < k,
        percent_value(rules_upto(args, fallback, gate, allow_cli, k), m) == if metric_rank(m) < k {
            pick(when(allow_cli, cli_percent(args, m)), config_percent(gate, m), config_percent(fallback, m))
        } else {
            None
        },
        uncovered_value(rules_upto(args, fallback, gate, allow_cli, k), m) == if 5 + metric_rank(m) < k {
            pick(when(allow_cli, cli_uncovered(args, m)), config_uncovered(gate, m), config_uncovered(fallback, m))
        } else {
            None
        },
    decreases k,
{
    if k > 0 {
        let prev = rules_upto(args, fallback, gate, allow_cli, (k - 1) as nat);
        let o = slot_rule(args, fallback, gate, allow_cli, (k - 1) as nat);
        lemma_rules_upto(args, fallback, gate, allow_cli, m, (k - 1) as nat);
        if let Some(x) = o {
            let s = prev.push(x);
            assert(s.drop_last() =~= prev);
            assert(s.last() == x);
            assert(rule_slot(x) == k - 1);
            assert forall|i: int| 0 <= i < s.len() implies rule_slot(#[trigger] s[i]) < k by {
                if i < prev.len() {
                    assert(s[i] == prev[i]);
                }
            }
            assert forall|i: int, j: int| 0 <= i < j < s.len() implies rule_slot(#[trigger] s[i]) < rule_slot(
                #[trigger] s[j],
            ) by {
                assert(s[i] == prev[i]);
                if j < prev.len() {
                    assert(s[j] == prev[j]);
                }
            }
        }
    }
}

/// Command-line thresholds override configuration. For each metric, a gate's
/// percentage rule takes the command-line value when command-line values are
/// allowed for it, else that gate entry's value, else the fallback entry's value,
/// and the same holds of its uncovered-count rule; and a gate lists at most one
/// rule of each kind per metric, percentage rules first, in metric order.
pub proof fn lemma_cli_overrides_config<P>(
    args: Args<P>,
    fallback: Option<GateRuleConfig<P>>,
    gate: Option<GateRuleConfig<P>>,
    allow_cli: bool,
    m: MetricKind,
)
    ensures
        percent_value(resolved_rules(args, fallback, gate, allow_cli), m) == pick(
            when(allow_cli, cli_percent(args, m)),
            config_percent(gate, m),
            config_percent(fallback, m),
        ),
        uncovered_value(resolved_rules(args, fallback, gate, allow_cli), m) == pick(
            when(allow_cli, cli_uncovered(args, m)),
            config_uncovered(gate, m),
            config_uncovered(fallback, m),
        ),
        forall|i: int, j: int|
            0 <= i < j < resolved_rules(args, fallback, gate, allow_cli).len() ==> rule_slot(
                #[trigger] resolved_rules(args, fallback, gate, allow_cli)[i],
            ) < rule_slot(#[trigger] resolved_rules(args, fallback, gate, allow_cli)[j]),
{
    lemma_rules_upto(args, fallback, gate, allow_cli, m, 10);
}

/// Some rule threshold is given on the command line.
pub open spec fn cli_has_rules<P>(args: Args<P>) -> bool {
    args.fail_under_regions is Some || args.fail_under_lines is Some || args.fail_under_branches is Some
        || args.fail_under_functions is Some || args.fail_under_named_functions is Some
        || args.fail_uncovered_regions is Some || args.fail_uncovered_lines is Some
        || args.fail_uncovered_branches is Some || args.fail_uncovered_functions is Some
        || args.fail_uncovered_named_functions is Some
}

/// Whether the command line gives any rule threshold.
pub fn has_cli_rules<P>(args: &Args<P>) -> (r: bool)
    ensures
        r == cli_has_rules(*args),
{
    args.fail_under_regions.is_some() || args.fail_under_lines.is_some()
        || args.fail_under_branches.is_some() || args.fail_under_functions.is_some()
        || args.fail_under_named_functions.is_some() || args.fail_uncovered_regions.is_some()
        || args.fail_uncovered_lines.is_some() || args.fail_uncovered_branches.is_some()
        || args.fail_uncovered_functions.is_some() || args.fail_uncovered_named_functions.is_some()
}

/// Where the Markdown summary is written: standard output, or a file.
#[derive(Debug)]
pub enum MarkdownTarget {
    Stdout,
    File(String),
}

/// The Markdown destination named by `path`: `-` is standard output.
pub open spec fn markdown_target_of(path: Seq<char>) -> (bool, Seq<char>) {
    if path == seq!['-'] {
        (true, seq![])
    } else {
        (false, path)
    }
}

/// A Markdown destination as plain values: whether it is standard output, and
/// the file path otherwise.
pub open spec fn target_view(t: MarkdownTarget) -> (bool, Seq<char>) {
    match t {
        MarkdownTarget::Stdout => (true, seq![]),
        MarkdownTarget::File(p) => (false, p@),
    }
}

/// The Markdown destination of a run: the command line's, else the configuration
/// file's, if either names one.
pub fn resolve_markdown_output<P>(args: &Args<P>, file_config: Option<&FileConfig<P>>) -> (r: Option<MarkdownTarget>)
    ensures
        ({
            let chosen = match args.markdown_output {
                Some(p) => Some(p@),
                None => match file_config {
                    Some(c) => match c.markdown_output {
                        Some(p) => Some(p@),
                        None => None,
                    },
                    None => None,
                },
            };
            match chosen {
                Some(p) => r matches Some(t) && target_view(t) == markdown_target_of(p),
                None => r is None,
            }
        }),
{
    let chosen: Option<&String> = match &args.markdown_output {
        Some(p) => Some(p),
        None => match file_config {
            Some(c) => match &c.markdown_output {
                Some(p) => Some(p),
                None => None,
            },
            None => None,
        },
    };
    match chosen {
        Some(p) => {
            proof {
                reveal_strlit("-");
                assert("-"@ =~= seq!['-']);
            }
            if crate::text::str_equal(p.as_str(), "-") {
                Some(MarkdownTarget::Stdout)
            } else {
                Some(MarkdownTarget::File(p.clone()))
            }
        },
        None => None,
    }
}

/// Whether the console summary is verbose: when the command line asks for it, or
/// the configuration file sets it.
pub fn resolve_verbose<P>(args: &Args<P>, file_config: Option<&FileConfig<P>>) -> (r: bool)
    ensures
        r == (args.verbose || (file_config matches Some(c) && c.verbose == Some(true))),
{
    args.verbose || match file_config {
        Some(c) => match c.verbose {
            Some(v) => v,
            None => false,
        },
        None => false,
    }
}

/// The strings of `items` joined with `sep`.
pub open spec fn joined(items: Seq<Seq<char>>, sep: Seq<char>) -> Seq<char>
    decreases items.len(),
{
    if items.len() == 0 {
        seq![]
    } else if items.len() == 1 {
        items[0]
    } else {
        joined(items.drop_last(), sep) + sep + items.last()
    }
}

pub open spec fn string_views(v: Seq<String>) -> Seq<Seq<char>> {
    v.map_values(|s: String| s@)
}

/// `items` joined with `sep`.
pub fn join_strings(items: &[String], sep: &str) -> (r: String)
    ensures
        r@ == joined(string_views(items@), sep@),
{
    let mut r = String::new();
    let mut i: usize = 0;
    let ghost views = string_views(items@);
    while i < items.len()
        invariant
            i <= items@.len(),
            views == string_views(items@),
            r@ == joined(views.subrange(0, i as int), sep@),
        decreases items@.len() - i,
    {
        proof {
            assert(views.subrange(0, i + 1).drop_last() =~= views.subrange(0, i as int));
            assert(views.subrange(0, i + 1).last() == items@[i as int]@);
        }
        if i > 0 {
            push_str(&mut r, sep);
        } else {
            assert(views.subrange(0, 1) =~= seq![items@[0]@]);
            assert(r@ =~= Seq::<char>::empty());
        }
        push_str(&mut r, items[i].as_str());
        i = i + 1;
    }
    assert(views.subrange(0, items@.len() as int) =~= views);
    r
}

/// `gate #N`.
pub open spec fn numbered_gate_label(index: nat) -> Seq<char> {
    "gate #"@ + decimal(index)
}

/// The label of a scoped gate without a name: its include patterns joined with
/// `, ` when that is at most 40 characters, else `gate #index`.
pub open spec fn scoped_gate_label(includes: Seq<Seq<char>>, index: nat) -> Option<Seq<char>> {
    if includes.len() == 0 {
        None
    } else if joined(includes, ", "@).len() <= 40 {
        Some(joined(includes, ", "@))
    } else {
        Some(numbered_gate_label(index))
    }
}

fn gate_number_label(index: usize) -> (s: String)
    ensures
        s@ == numbered_gate_label(index as nat),
{
    let mut s = String::new();
    push_str(&mut s, "gate #");
    push_decimal(&mut s, index as u64);
    assert(s@ =~= numbered_gate_label(index as nat));
    s
}

/// The label of a scoped gate without a name.
pub fn derive_scoped_gate_label(includes: &[String], index: usize) -> (r: Option<String>)
    ensures
        match r {
            Some(s) => scoped_gate_label(string_views(includes@), index as nat) == Some(s@),
            None => scoped_gate_label(string_views(includes@), index as nat) is None,
        },
{
    if includes.len() == 0 {
        return None;
    }
    let joined_labels = join_strings(includes, ", ");
    let count = chars_of(joined_labels.as_str()).len();
    if count <= 40 {
        Some(joined_labels)
    } else {
        Some(gate_number_label(index))
    }
}

/// The state of checking gate entries: the names seen and the count of
/// fallback entries, or the first error.
pub open spec fn validation_scan<P>(gates: Seq<GateEntryConfig<P>>) -> Result<(Set<Seq<char>>, nat), Seq<char>>
    decreases gates.len(),
{
    if gates.len() == 0 {
        Ok((Set::empty(), 0))
    } else {
        match validation_scan(gates.drop_last()) {
            Err(e) => Err(e),
            Ok((names, fallbacks)) => {
                let g = gates.last();
                if g.includes@.len() == 0 && g.excludes@.len() != 0 {
                    Err("gate `exclude` requires `include`"@)
                } else {
                    let fallbacks2 = if g.includes@.len() == 0 {
                        fallbacks + 1
                    } else {
                        fallbacks
                    };
                    match g.name {
                        Some(n) => if names.contains(n@) {
                            Err("duplicate gate name `"@ + n@ + "`"@)
                        } else {
                            Ok((names.insert(n@), fallbacks2))
                        },
                        None => Ok((names, fallbacks2)),
                    }
                }
            },
        }
    }
}

/// The error of a configuration, if any: an entry with `exclude` but no `include`,
/// a repeated gate name, or more than one fallback entry.
pub open spec fn validation_error<P>(config: FileConfig<P>) -> Option<Seq<char>> {
    match validation_scan(config.gates@) {
        Err(e) => Some(e),
        Ok((_, fallbacks)) => if fallbacks > 1 {
            Some("only one fallback gate is allowed"@)
        } else {
            None
        },
    }
}

fn name_seen(seen: &Vec<String>, n: &String) -> (r: bool)
    ensures
        r == string_views(seen@).contains(n@),
{
    let mut i: usize = 0;
    while i < seen.len()
        invariant
            i <= seen@.len(),
            forall|j: int| 0 <= j < i ==> seen@[j]@ != n@,
        decreases seen@.len() - i,
    {
        if seen[i] == *n {
            assert(string_views(seen@)[i as int] == n@);
            return true;
        }
        i = i + 1;
    }
    proof {
        if string_views(seen@).contains(n@) {
            let j = choose|j: int| 0 <= j < seen@.len() && string_views(seen@)[j] == n@;
            assert(seen@[j]@ == n@);
        }
    }
    false
}

/// For TOML text: `None` when it does not parse, else whether its top-level
/// `gates` key is present and holds a table.
pub uninterp spec fn toml_gates_table(text: Seq<char>) -> Option<bool>;

/// Calls `toml::from_str::<toml::Value>(text)` and, when the text parses,
/// `Value::get("gates")`; reports whether that value is a table.
#[verifier::external_body]
fn toml_gates_kind(text: &str) -> (r: Option<bool>)
    ensures
        r == toml_gates_table(text@),
{
    match toml::from_str::<toml::Value>(text) {
        Ok(v) => match v.get("gates") {
            Some(toml::Value::Table(_)) => Some(true),
            _ => Some(false),
        },
        Err(_) => None,
    }
}

/// The message for a configuration in the older `[gates]` table form.
pub open spec fn legacy_gates_message() -> Seq<char> {
    "legacy [gates] table is no longer supported; use [[gates]] entries instead"@
}

/// Refuses a configuration whose `gates` key holds a table, given what reading it
/// as TOML found (`gates_table`). Text that is not TOML passes here: the typed
/// reading of the configuration reports it.
pub fn legacy_gates_verdict(gates_table: Option<bool>) -> (r: Result<(), CovgateError>)
    ensures
        match gates_table {
            Some(true) => r matches Err(e) && e.message@ == legacy_gates_message(),
            _ => r is Ok,
        },
{
    match gates_table {
        Some(true) => Err(
            CovgateError::new("legacy [gates] table is no longer supported; use [[gates]] entries instead"),
        ),
        _ => Ok(()),
    }
}

/// Refuses configuration text in the older `[gates]` table form.
pub fn check_legacy_gates(text: &str) -> (r: Result<(), CovgateError>)
    ensures
        match toml_gates_table(text@) {
            Some(true) => r matches Err(e) && e.message@ == legacy_gates_message(),
            _ => r is Ok,
        },
{
    legacy_gates_verdict(toml_gates_kind(text))
}

/// Checks all gate entries of a configuration.
pub fn validate_file_config<P>(config: &FileConfig<P>) -> (r: Result<(), CovgateError>)
    ensures
        match validation_error(*config) {
            Some(msg) => r matches Err(e) && e.message@ == msg,
            None => r is Ok,
        },
{
    let gates = &config.gates;
    let mut seen: Vec<String> = Vec::new();
    let mut fallback_count: usize = 0;
    let mut i: usize = 0;
    assert(gates@.subrange(0, 0) =~= Seq::<GateEntryConfig<P>>::empty());
    assert(string_views(seen@).to_set() =~= Set::<Seq<char>>::empty());
    while i < gates.len()
        invariant
            i <= gates@.len(),
            gates@ == config.gates@,
            fallback_count <= i,
            validation_scan(gates@.subrange(0, i as int)) == Ok::<(Set<Seq<char>>, nat), Seq<char>>(
                (string_views(seen@).to_set(), fallback_count as nat),
            ),
        decreases gates@.len() - i,
    {
        proof {
            assert(gates@.subrange(0, i + 1).drop_last() =~= gates@.subrange(0, i as int));
            assert(gates@.subrange(0, i + 1).last() == gates@[i as int]);
        }
        let gate = &gates[i];
        if gate.includes.len() == 0 {
            fallback_count = fallback_count + 1;
            if gate.excludes.len() != 0 {
                proof {
                    lemma_validation_stuck(gates@, i as int + 1);
                }
                return Err(CovgateError::new("gate `exclude` requires `include`"));
            }
        }
        if let Some(name) = &gate.name {
            if name_seen(&seen, name) {
                let mut msg = String::new();
                push_str(&mut msg, "duplicate gate name `");
                push_str(&mut msg, name.as_str());
                push_str(&mut msg, "`");
                proof {
                    lemma_validation_stuck(gates@, i as int + 1);
                    assert(msg@ =~= "duplicate gate name `"@ + name@ + "`"@);
                }
                return Err(CovgateError { message: msg });
            }
            let ghost before = string_views(seen@);
            seen.push(name.clone());
            assert(string_views(seen@) =~= before.push(name@));
            proof {
                before.lemma_push_to_set_commute(name@);
            }
        }
        i = i + 1;
    }
    assert(gates@.subrange(0, gates@.len() as int) =~= gates@);
    if fallback_count > 1 {
        return Err(CovgateError::new("only one fallback gate is allowed"));
    }
    Ok(())
}

proof fn lemma_validation_stuck<P>(gates: Seq<GateEntryConfig<P>>, i: int)
    requires
        0 <= i <= gates.len(),
        validation_scan(gates.subrange(0, i)) is Err,
    ensures
        validation_scan(gates) == validation_scan(gates.subrange(0, i)),
    decreases gates.len() - i,
{
    if i < gates.len() {
        assert(gates.subrange(0, i + 1).drop_last() =~= gates.subrange(0, i));
        lemma_validation_stuck(gates, i + 1);
    } else {
        assert(gates.subrange(0, i) =~= gates);
    }
}

/// Where the changed lines come from: `--base` or `--diff-file` (never both), else
/// the configured base, else the discovered base.
pub open spec fn diff_source_choice<P>(args: Args<P>, config_base: Option<Seq<char>>) -> Option<Result<(bool, Seq<char>), Seq<char>>> {
    match (args.base, args.diff_file) {
        (Some(b), None) => Some(Ok((true, b@))),
        (None, Some(p)) => Some(Ok((false, p@))),
        (Some(_), Some(_)) => Some(Err("--base and --diff-file are mutually exclusive"@)),
        (None, None) => match config_base {
            Some(b) => Some(Ok((true, b))),
            None => None,
        },
    }
}

/// The message when no base can be found.
pub open spec fn no_base_message() -> Seq<char> {
    "unable to determine a base ref automatically. Try one of: pass --base <REF>; run covgate record-base; create refs/worktree/covgate/base manually with `git update-ref refs/worktree/covgate/base HEAD`; or configure covgate.toml with a base value"@
}

pub open spec fn source_view(s: DiffSource) -> (bool, Seq<char>) {
    match s {
        DiffSource::GitBase(b) => (true, b@),
        DiffSource::DiffFile(p) => (false, p@),
    }
}

/// Chooses the diff source. `discover` is asked for a base only when neither the
/// command line nor the configuration names one.
pub fn resolve_diff_source<P, F: FnOnce() -> Result<Option<String>, CovgateError>>(
    args: &Args<P>,
    file_config: Option<&FileConfig<P>>,
    discover: F,
) -> (r: Result<DiffSource, CovgateError>)
    requires
        call_requires(discover, ()),
    ensures
        ({
            let config_base = match file_config {
                Some(c) => match c.base {
                    Some(b) => Some(b@),
                    None => None,
                },
                None => None,
            };
            match diff_source_choice(*args, config_base) {
                Some(Ok(v)) => r matches Ok(s) && source_view(s) == v,
                Some(Err(msg)) => r matches Err(e) && e.message@ == msg,
                None => exists|d: Result<Option<String>, CovgateError>| #[trigger] call_ensures(discover, (), d) && match d {
                    Ok(Some(b)) => r matches Ok(s) && source_view(s) == (true, b@),
                    Ok(None) => r matches Err(e) && e.message@ == no_base_message(),
                    Err(e0) => r == Err::<DiffSource, CovgateError>(e0),
                },
            }
        }),
{
    match (&args.base, &args.diff_file) {
        (Some(base), None) => Ok(DiffSource::GitBase(base.clone())),
        (None, Some(path)) => Ok(DiffSource::DiffFile(path.clone())),
        (Some(_), Some(_)) => Err(CovgateError::new("--base and --diff-file are mutually exclusive")),
        (None, None) => {
            if let Some(config) = file_config {
                if let Some(base) = &config.base {
                    return Ok(DiffSource::GitBase(base.clone()));
                }
            }
            let d = discover();
            match d {
                Ok(Some(base)) => Ok(DiffSource::GitBase(base)),
                Ok(None) => Err(CovgateError::new(
                    "unable to determine a base ref automatically. Try one of: pass --base <REF>; run covgate record-base; create refs/worktree/covgate/base manually with `git update-ref refs/worktree/covgate/base HEAD`; or configure covgate.toml with a base value",
                )),
                Err(e) => Err(e),
            }
        },
    }
}

/// The index of the last `c` in `s`, if any.
pub open spec fn last_index_of(s: Seq<char>, c: char) -> Option<int>
    decreases s.len(),
{
    if s.len() == 0 {
        None
    } else if s.last() == c {
        Some(s.len() - 1)
    } else {
        last_index_of(s.drop_last(), c)
    }
}

proof fn lemma_last_index_of(s: Seq<char>, c: char)
    ensures
        last_index_of(s, c) matches Some(i) ==> 0 <= i < s.len() && s[i] == c,
    decreases s.len(),
{
    if s.len() > 0 && s.last() != c {
        lemma_last_index_of(s.drop_last(), c);
    }
}

/// The parent directory of a path: everything before the last `/`, `/` for a
/// top-level entry, the empty path for a relative single name, and none for the
/// root or the empty path.
pub open spec fn parent_path(s: Seq<char>) -> Option<Seq<char>> {
    if s.len() == 0 || s == seq!['/'] {
        None
    } else {
        match last_index_of(s, '/') {
            None => Some(seq![]),
            Some(i) => if i == 0 {
                Some(seq!['/'])
            } else {
                Some(s.subrange(0, i))
            },
        }
    }
}

/// `dir` joined with the configuration file name.
pub open spec fn config_path_in(dir: Seq<char>) -> Seq<char> {
    if dir.len() == 0 {
        config_file_name()
    } else if dir.last() == '/' {
        dir + config_file_name()
    } else {
        dir + seq!['/'] + config_file_name()
    }
}

proof fn lemma_parent_shorter(s: Seq<char>)
    ensures
        parent_path(s) matches Some(p) ==> p.len() < s.len(),
{
    lemma_last_index_of(s, '/');
    if s.len() == 1 && s[0] == '/' {
        assert(s =~= seq!['/']);
    }
}

/// Where to look for the configuration file: in `dir` and each of its ancestors,
/// nearest first, stopping after `root` when it is met.
pub open spec fn config_candidates(dir: Seq<char>, root: Option<Seq<char>>) -> Seq<Seq<char>>
    decreases dir.len(),
{
    let here = seq![config_path_in(dir)];
    if root == Some(dir) {
        here
    } else {
        match parent_path(dir) {
            Some(p) => if p.len() < dir.len() {
                here + config_candidates(p, root)
            } else {
                here
            },
            None => here,
        }
    }
}

fn parent_of(v: &Vec<char>) -> (r: Option<Vec<char>>)
    ensures
        match r {
            Some(p) => parent_path(v@) == Some(p@),
            None => parent_path(v@) is None,
        },
{
    if v.len() == 0 || (v.len() == 1 && v[0] == '/') {
        if v.len() == 1 {
            assert(v@ =~= seq!['/']);
        }
        return None;
    }
    assert(v@ != seq!['/']) by {
        if v@ == seq!['/'] {
            assert(v@.len() == 1);
        }
    }
    let mut i = v.len();
    assert(v@.subrange(0, v@.len() as int) =~= v@);
    while i > 0 && v[i - 1] != '/'
        invariant
            i <= v@.len(),
            last_index_of(v@, '/') == last_index_of(v@.subrange(0, i as int), '/'),
        decreases i,
    {
        assert(v@.subrange(0, i as int).drop_last() =~= v@.subrange(0, i - 1));
        i = i - 1;
    }
    if i == 0 {
        assert(v@.subrange(0, 0) =~= Seq::<char>::empty());
        Some(Vec::new())
    } else {
        assert(v@.subrange(0, i as int).last() == v@[i - 1]);
        if i == 1 {
            Some(vec!['/'])
        } else {
            Some(crate::text::slice_chars(v.as_slice(), 0, i - 1))
        }
    }
}

/// The configuration file candidates for the directory `dir`, stopping at the
/// repository root when one is known.
pub fn config_candidate_paths(dir: &str, repo_root: Option<&str>) -> (r: Vec<String>)
    ensures
        string_views(r@) == config_candidates(
            dir@,
            match repo_root {
                Some(x) => Some(x@),
                None => None,
            },
        ),
{
    let ghost root = match repo_root {
        Some(x) => Some(x@),
        None => None::<Seq<char>>,
    };
    let root_chars: Option<Vec<char>> = match repo_root {
        Some(x) => Some(chars_of(x)),
        None => None,
    };
    let name = chars_of("covgate.toml");
    let mut candidates: Vec<String> = Vec::new();
    let mut cur = chars_of(dir);
    loop
        invariant
            name@ == config_file_name(),
            root == (match repo_root {
                Some(x) => Some(x@),
                None => None::<Seq<char>>,
            }),
            root == (match root_chars {
                Some(x) => Some(x@),
                None => None::<Seq<char>>,
            }),
            string_views(candidates@) + config_candidates(cur@, root) == config_candidates(dir@, root),
        decreases cur@.len(),
    {
        let mut path = string_from_chars(cur.as_slice());
        if cur.len() == 0 {
            path = string_from_chars(name.as_slice());
        } else if cur[cur.len() - 1] == '/' {
            push_chars(&mut path, name.as_slice());
        } else {
            path.push('/');
            push_chars(&mut path, name.as_slice());
        }
        assert(path@ =~= config_path_in(cur@));
        let ghost before = string_views(candidates@);
        candidates.push(path);
        assert(string_views(candidates@) =~= before.push(config_path_in(cur@)));
        let at_root = match &root_chars {
            Some(x) => crate::text::chars_equal(x.as_slice(), cur.as_slice()),
            None => false,
        };
        if at_root {
            assert(root == Some(cur@));
            assert(config_candidates(cur@, root) == seq![config_path_in(cur@)]);
            assert(string_views(candidates@) =~= config_candidates(dir@, root));
            return candidates;
        }
        proof {
            lemma_parent_shorter(cur@);
        }
        match parent_of(&cur) {
            Some(p) => {
                assert(before + config_candidates(cur@, root) =~= string_views(candidates@) + config_candidates(p@, root));
                cur = p;
            },
            None => {
                assert(config_candidates(cur@, root) == seq![config_path_in(cur@)]);
                assert(string_views(candidates@) =~= config_candidates(dir@, root));
                return candidates;
            },
        }
    }
}

/// `ignore::gitignore::GitignoreBuilder`, a builder of gitignore matchers.
#[verifier::external_type_specification]
#[verifier::external_body]
pub struct ExGitignoreBuilder(ignore::gitignore::GitignoreBuilder);

/// `ignore::gitignore::Gitignore`, a compiled set of gitignore patterns.
#[verifier::external_type_specification]
#[verifier::external_body]
pub struct ExGitignore(ignore::gitignore::Gitignore);

/// How a path fares against a gitignore matcher.
#[derive(Clone, Copy, Debug, PartialEq, Eq, Structural)]
pub enum IgnoreMatch {
    Unmatched,
    Ignored,
    Whitelisted,
}

/// The root directory a gitignore builder holds.
pub uninterp spec fn builder_root(b: ignore::gitignore::GitignoreBuilder) -> Seq<char>;

/// The glob lines a gitignore builder holds, in the order they were added, each
/// as it was stored (see `gitignore_glob_line`).
pub uninterp spec fn builder_lines(b: ignore::gitignore::GitignoreBuilder) -> Seq<Seq<char>>;

/// The root directory of a compiled gitignore matcher.
pub uninterp spec fn matcher_root(g: ignore::gitignore::Gitignore) -> Seq<char>;

/// The glob lines a compiled gitignore matcher holds, in order.
pub uninterp spec fn matcher_lines(g: ignore::gitignore::Gitignore) -> Seq<Seq<char>>;

/// Whether `GitignoreBuilder::add_line` accepts a line: a comment, a blank line,
/// or a pattern that parses as a glob.
pub uninterp spec fn gitignore_line_ok(line: Seq<char>) -> bool;

/// Whether `GitignoreBuilder::build` compiles the glob set of a builder with root
/// `root` and the glob lines `lines`.
pub uninterp spec fn gitignore_builds(root: Seq<char>, lines: Seq<Seq<char>>) -> bool;

/// What `Gitignore::matched(path, false)` reports for a file path, against the
/// matcher with root `root` and glob lines `lines`.
pub uninterp spec fn gitignore_verdict(root: Seq<char>, lines: Seq<Seq<char>>, path: Seq<char>) -> IgnoreMatch;

/// The verdict of a compiled matcher on a file path.
pub open spec fn verdict_of(g: ignore::gitignore::Gitignore, path: Seq<char>) -> IgnoreMatch {
    gitignore_verdict(matcher_root(g), matcher_lines(g), path)
}

/// The root a gitignore builder keeps for `root`: without a leading `./`.
pub open spec fn gitignore_root(root: Seq<char>) -> Seq<char> {
    if root.len() >= 2 && root[0] == '.' && root[1] == '/' {
        root.skip(2)
    } else {
        root
    }
}

/// A character with the Unicode `White_Space` property.
pub open spec fn is_white_space(c: char) -> bool {
    ||| ('\u{9}' <= c && c <= '\u{d}')
    ||| c == ' '
    ||| c == '\u{85}'
    ||| c == '\u{a0}'
    ||| c == '\u{1680}'
    ||| ('\u{2000}' <= c && c <= '\u{200a}')
    ||| c == '\u{2028}'
    ||| c == '\u{2029}'
    ||| c == '\u{202f}'
    ||| c == '\u{205f}'
    ||| c == '\u{3000}'
}

/// `s` without its trailing white space.
pub open spec fn trim_end_white(s: Seq<char>) -> Seq<char>
    decreases s.len(),
{
    if s.len() > 0 && is_white_space(s.last()) {
        trim_end_white(s.drop_last())
    } else {
        s
    }
}

/// The glob line that `add_line` stores for `line`: none for a comment (a line
/// starting with `#`) or for a line that is blank once its trailing white space
/// is cut; else the line with its trailing white space cut, unless it ends with
/// an escaped space (`\ `), which is kept as written.
pub open spec fn gitignore_glob_line(line: Seq<char>) -> Option<Seq<char>> {
    if line.len() > 0 && line[0] == '#' {
        None
    } else {
        let kept = line.len() >= 2 && line[line.len() - 2] == '\\' && line[line.len() - 1] == ' ';
        let t = if kept {
            line
        } else {
            trim_end_white(line)
        };
        if t.len() == 0 {
            None
        } else {
            Some(t)
        }
    }
}

/// The glob lines stored for `patterns`, in order.
pub open spec fn gitignore_lines(patterns: Seq<Seq<char>>) -> Seq<Seq<char>>
    decreases patterns.len(),
{
    if patterns.len() == 0 {
        seq![]
    } else {
        let prev = gitignore_lines(patterns.drop_last());
        match gitignore_glob_line(patterns.last()) {
            Some(t) => prev.push(t),
            None => prev,
        }
    }
}

/// Calls `GitignoreBuilder::new(root)`: an empty builder whose root is `root`
/// without a leading `./` (the prefix is cut from the path's bytes, as on Unix).
#[verifier::external_body]
fn gitignore_builder(root: &str) -> (b: ignore::gitignore::GitignoreBuilder)
    ensures
        builder_root(b) == gitignore_root(root@),
        builder_lines(b) == Seq::<Seq<char>>::empty(),
{
    ignore::gitignore::GitignoreBuilder::new(root)
}

/// Calls `GitignoreBuilder::add_line(None, line)`. A comment or blank line is
/// accepted and stores nothing; any other line is accepted when it parses as a
/// glob, and is then stored as `gitignore_glob_line` gives it. On failure the
/// builder is left as it was.
#[verifier::external_body]
fn gitignore_add_line(builder: &mut ignore::gitignore::GitignoreBuilder, line: &str) -> (r: bool)
    ensures
        r == gitignore_line_ok(line@),
        gitignore_glob_line(line@) is None ==> r,
        builder_root(*final(builder)) == builder_root(*old(builder)),
        builder_lines(*final(builder)) == if r {
            match gitignore_glob_line(line@) {
                Some(t) => builder_lines(*old(builder)).push(t),
                None => builder_lines(*old(builder)),
            }
        } else {
            builder_lines(*old(builder))
        },
{
    builder.add_line(None, line).is_ok()
}

/// Calls `GitignoreBuilder::build()`. A builder without glob lines gives the empty
/// matcher (`Gitignore::empty()`: root `""`, no lines). Otherwise it gives `None`
/// when the glob set cannot be compiled, which depends on the builder's root and
/// lines alone (named by `gitignore_builds`), and else a matcher with the
/// builder's root and lines.
#[verifier::external_body]
fn gitignore_build(builder: &ignore::gitignore::GitignoreBuilder) -> (r: Option<ignore::gitignore::Gitignore>)
    ensures
        r is Some <==> builder_lines(*builder).len() == 0 || gitignore_builds(
            builder_root(*builder),
            builder_lines(*builder),
        ),
        r matches Some(g) ==> if builder_lines(*builder).len() == 0 {
            matcher_root(g) == Seq::<char>::empty() && matcher_lines(g) == Seq::<Seq<char>>::empty()
        } else {
            matcher_root(g) == builder_root(*builder) && matcher_lines(g) == builder_lines(*builder)
        },
{
    builder.build().ok()
}

/// Calls `Gitignore::matched(path, false)` and reports which kind of match it is.
/// A matcher without glob lines matches nothing.
#[verifier::external_body]
fn gitignore_matched(g: &ignore::gitignore::Gitignore, path: &str) -> (r: IgnoreMatch)
    ensures
        r == gitignore_verdict(matcher_root(*g), matcher_lines(*g), path@),
        matcher_lines(*g).len() == 0 ==> r == IgnoreMatch::Unmatched,
{
    let m = g.matched(path, false);
    if m.is_ignore() {
        IgnoreMatch::Ignored
    } else if m.is_whitelist() {
        IgnoreMatch::Whitelisted
    } else {
        IgnoreMatch::Unmatched
    }
}

/// Calls `Gitignore::clone`: the same root and lines.
#[verifier::external_body]
fn gitignore_clone(g: &ignore::gitignore::Gitignore) -> (r: ignore::gitignore::Gitignore)
    ensures
        matcher_root(r) == matcher_root(*g),
        matcher_lines(r) == matcher_lines(*g),
{
    g.clone()
}

/// A path is in a scoped gate when an include pattern matches it (as ignored or
/// whitelisted), no exclude pattern ignores it, and the repository does not ignore it.
pub open spec fn matcher_admits(include_m: IgnoreMatch, exclude_m: IgnoreMatch, repo_m: IgnoreMatch) -> bool {
    include_m != IgnoreMatch::Unmatched && exclude_m != IgnoreMatch::Ignored && repo_m != IgnoreMatch::Ignored
}

/// The decision of a path matcher from its three match results.
pub fn matcher_decision(include_m: IgnoreMatch, exclude_m: IgnoreMatch, repo_m: IgnoreMatch) -> (r: bool)
    ensures
        r == matcher_admits(include_m, exclude_m, repo_m),
{
    if include_m == IgnoreMatch::Unmatched {
        return false;
    }
    if exclude_m == IgnoreMatch::Ignored {
        return false;
    }
    if repo_m == IgnoreMatch::Ignored {
        return false;
    }
    true
}

/// The message for a gate pattern the matcher rejects.
pub open spec fn invalid_pattern_message(pattern: Seq<char>) -> Seq<char> {
    "invalid gate pattern `"@ + pattern + "`"@
}

/// `i` is the first pattern that gitignore rejects.
pub open spec fn first_rejected(patterns: Seq<Seq<char>>, i: int) -> bool {
    &&& 0 <= i < patterns.len()
    &&& !gitignore_line_ok(patterns[i])
    &&& forall|j: int| 0 <= j < i ==> gitignore_line_ok(#[trigger] patterns[j])
}

/// The first pattern is rejected at most once: a first rejected pattern is unique.
proof fn lemma_first_rejected_unique(patterns: Seq<Seq<char>>, i: int, j: int)
    requires
        first_rejected(patterns, i),
        first_rejected(patterns, j),
    ensures
        i == j,
{
    if i < j {
        assert(gitignore_line_ok(patterns[i]));
    } else if j < i {
        assert(gitignore_line_ok(patterns[j]));
    }
}

/// Why a matcher cannot be built from `patterns` relative to `root`, if it
/// cannot: the first pattern that gitignore rejects, or, with every pattern
/// accepted and some glob line stored, a glob set that does not compile.
pub open spec fn pattern_failure(root: Seq<char>, patterns: Seq<Seq<char>>) -> Option<Seq<char>> {
    if exists|i: int| first_rejected(patterns, i) {
        Some(invalid_pattern_message(patterns[choose|i: int| first_rejected(patterns, i)]))
    } else if gitignore_lines(patterns).len() == 0 || gitignore_builds(gitignore_root(root), gitignore_lines(patterns)) {
        None
    } else {
        Some("failed to build gate matcher"@)
    }
}

/// `g` is the matcher that gitignore builds from `patterns` relative to `root`:
/// the empty matcher when no glob line is stored, else one with the builder's
/// root and the stored glob lines.
pub open spec fn is_matcher_of(g: ignore::gitignore::Gitignore, root: Seq<char>, patterns: Seq<Seq<char>>) -> bool {
    &&& matcher_lines(g) == gitignore_lines(patterns)
    &&& matcher_root(g) == if gitignore_lines(patterns).len() == 0 {
        Seq::<char>::empty()
    } else {
        gitignore_root(root)
    }
}

/// What building a matcher from `patterns` gives: the matcher of those patterns
/// relative to `root` when nothing fails, else the error of `pattern_failure`.
pub open spec fn is_pattern_matcher(
    root: Seq<char>,
    patterns: Seq<Seq<char>>,
    r: Result<ignore::gitignore::Gitignore, CovgateError>,
) -> bool {
    match pattern_failure(root, patterns) {
        None => r matches Ok(g) && is_matcher_of(g, root, patterns),
        Some(m) => r matches Err(e) && e.message@ == m,
    }
}

/// Builds a gitignore matcher from `patterns`, relative to `root`.
pub fn build_pattern_matcher(root: &str, patterns: &[String]) -> (r: Result<ignore::gitignore::Gitignore, CovgateError>)
    ensures
        is_pattern_matcher(root@, string_views(patterns@), r),
{
    let ghost views = string_views(patterns@);
    let mut builder = gitignore_builder(root);
    let mut i: usize = 0;
    assert(views.subrange(0, 0) =~= Seq::<Seq<char>>::empty());
    while i < patterns.len()
        invariant
            i <= patterns@.len(),
            views == string_views(patterns@),
            builder_root(builder) == gitignore_root(root@),
            builder_lines(builder) == gitignore_lines(views.subrange(0, i as int)),
            forall|j: int| 0 <= j < i ==> gitignore_line_ok(#[trigger] views[j]),
        decreases patterns@.len() - i,
    {
        assert(views[i as int] == patterns@[i as int]@);
        if !gitignore_add_line(&mut builder, patterns[i].as_str()) {
            let mut msg = String::new();
            push_str(&mut msg, "invalid gate pattern `");
            push_str(&mut msg, patterns[i].as_str());
            push_str(&mut msg, "`");
            assert(msg@ =~= invalid_pattern_message(views[i as int]));
            assert(first_rejected(views, i as int));
            proof {
                let c = choose|k: int| first_rejected(views, k);
                lemma_first_rejected_unique(views, c, i as int);
            }
            return Err(CovgateError { message: msg });
        }
        assert(views.subrange(0, i + 1).drop_last() =~= views.subrange(0, i as int));
        i = i + 1;
    }
    assert(views.subrange(0, views.len() as int) =~= views);
    assert(!exists|k: int| first_rejected(views, k));
    assert(builder_lines(builder) == gitignore_lines(views));
    match gitignore_build(&builder) {
        Some(g) => {
            assert(matcher_lines(g) == gitignore_lines(views));
            proof {
                if gitignore_lines(views).len() == 0 {
                    assert(matcher_root(g) == Seq::<char>::empty());
                } else {
                    assert(matcher_root(g) == gitignore_root(root@));
                }
            }
            assert(is_matcher_of(g, root@, views));
            Ok(g)
        },
        None => {
            let e = CovgateError::new("failed to build gate matcher");
            assert(e.message@ == "failed to build gate matcher"@);
            Err(e)
        },
    }
}

/// Why a path matcher cannot be built: the failure of its include patterns, else
/// that of its exclude patterns.
pub open spec fn matcher_failure(root: Seq<char>, includes: Seq<Seq<char>>, excludes: Seq<Seq<char>>) -> Option<
    Seq<char>,
> {
    match pattern_failure(root, includes) {
        Some(m) => Some(m),
        None => pattern_failure(root, excludes),
    }
}

/// Decides which changed paths belong to a scoped gate: its include and exclude
/// patterns, and the repository's own ignore rules.
pub struct PathMatcher {
    pub repo_ignores: ignore::gitignore::Gitignore,
    pub include_set: ignore::gitignore::Gitignore,
    pub exclude_set: ignore::gitignore::Gitignore,
}

impl PathMatcher {
    /// Whether the matcher takes the file `path`.
    pub open spec fn admits(&self, path: Seq<char>) -> bool {
        matcher_admits(
            verdict_of(self.include_set, path),
            verdict_of(self.exclude_set, path),
            verdict_of(self.repo_ignores, path),
        )
    }

    /// A matcher for the given include and exclude patterns, relative to `root`.
    pub fn new(
        root: &str,
        includes: &[String],
        excludes: &[String],
        repo_ignores: ignore::gitignore::Gitignore,
    ) -> (r: Result<PathMatcher, CovgateError>)
        ensures
            r matches Ok(m) ==> m.repo_ignores == repo_ignores && is_matcher_of(m.include_set, root@, string_views(includes@))
                && is_matcher_of(m.exclude_set, root@, string_views(excludes@)),
            match matcher_failure(root@, string_views(includes@), string_views(excludes@)) {
                Some(msg) => r matches Err(e) && e.message@ == msg,
                None => r is Ok,
            },
    {
        let include_set = match build_pattern_matcher(root, includes) {
            Ok(g) => g,
            Err(e) => {
                return Err(e);
            },
        };
        let exclude_set = match build_pattern_matcher(root, excludes) {
            Ok(g) => g,
            Err(e) => {
                return Err(e);
            },
        };
        Ok(PathMatcher { repo_ignores, include_set, exclude_set })
    }

    /// Whether the path belongs to this gate.
    pub fn matches(&self, path: &str) -> (r: bool)
        ensures
            r == self.admits(path@),
    {
        let include_m = gitignore_matched(&self.include_set, path);
        let exclude_m = gitignore_matched(&self.exclude_set, path);
        let repo_m = gitignore_matched(&self.repo_ignores, path);
        matcher_decision(include_m, exclude_m, repo_m)
    }
}

/// A gate of the run: its label, its rules, and for a scoped gate the matcher of
/// its paths (the fallback gate has none).
pub struct ConfiguredGate<P> {
    pub label: Option<String>,
    pub rules: Vec<GateRule<P>>,
    pub matcher: Option<PathMatcher>,
}

impl<P> ConfiguredGate<P> {
    /// A gate with the given label and rules, scoped by `matcher` when one is given.
    pub fn new(label: Option<String>, rules: Vec<GateRule<P>>, matcher: Option<PathMatcher>) -> (g: ConfiguredGate<P>)
        ensures
            g.label == label,
            g.rules == rules,
            g.matcher == matcher,
    {
        ConfiguredGate { label, rules, matcher }
    }

    pub open spec fn is_fallback_spec(&self) -> bool {
        self.matcher is None
    }

    /// Whether this gate takes the changed file `path`; the fallback gate takes none.
    pub open spec fn admits(&self, path: Seq<char>) -> bool {
        match self.matcher {
            Some(m) => m.admits(path),
            None => false,
        }
    }

    /// The fallback gate takes the changed files that no scoped gate takes.
    pub fn is_fallback(&self) -> (r: bool)
        ensures
            r == self.is_fallback_spec(),
    {
        self.matcher.is_none()
    }

    /// Whether a changed path belongs to this gate; never for the fallback gate.
    pub fn matches(&self, path: &str) -> (r: bool)
        ensures
            r == self.admits(path@),
    {
        match &self.matcher {
            Some(m) => m.matches(path),
            None => false,
        }
    }
}

/// What a gate of the run is to be: its label, rules, and whether it is the fallback.
pub struct GatePlan<P> {
    pub label: Option<Seq<char>>,
    pub rules: Seq<GateRule<P>>,
    pub fallback: bool,
    pub includes: Seq<Seq<char>>,
    pub excludes: Seq<Seq<char>>,
}

pub open spec fn opt_view(o: Option<String>) -> Option<Seq<char>> {
    match o {
        Some(s) => Some(s@),
        None => None,
    }
}

/// The message for a gate entry that yields no rules.
pub open spec fn no_rules_message(name: Seq<char>) -> Seq<char> {
    "gate `"@ + name + "` has no rules configured"@
}

/// The message when no gate has any rule.
pub open spec fn no_gates_message() -> Seq<char> {
    "at least one rule (e.g., --fail-under-regions or --fail-uncovered-regions) is required unless covgate.toml defines a supported [[gates]] entry"@
}

/// The plan for a gate entry at position `index` (counting from zero). A
/// fallback entry also takes its rules from the command line.
pub open spec fn plan_entry<P>(args: Args<P>, g: GateEntryConfig<P>, index: nat) -> Result<GatePlan<P>, Seq<char>> {
    let fb = g.includes@.len() == 0;
    let rules = resolved_rules(args, if fb { Some(g.rules) } else { None }, Some(g.rules), fb);
    if rules.len() == 0 {
        Err(no_rules_message(match g.name {
            Some(n) => n@,
            None => numbered_gate_label(index + 1),
        }))
    } else {
        Ok(GatePlan {
            label: match g.name {
                Some(n) => Some(n@),
                None => scoped_gate_label(string_views(g.includes@), index + 1),
            },
            rules,
            fallback: fb,
            includes: string_views(g.includes@),
            excludes: string_views(g.excludes@),
        })
    }
}

pub open spec fn plan_entries<P>(args: Args<P>, gates: Seq<GateEntryConfig<P>>) -> Result<Seq<GatePlan<P>>, Seq<char>>
    decreases gates.len(),
{
    if gates.len() == 0 {
        Ok(seq![])
    } else {
        match plan_entries(args, gates.drop_last()) {
            Err(e) => Err(e),
            Ok(plans) => match plan_entry(args, gates.last(), (gates.len() - 1) as nat) {
                Err(e) => Err(e),
                Ok(p) => Ok(plans.push(p)),
            },
        }
    }
}

/// Some plan is a fallback gate.
pub open spec fn has_fallback_plan<P>(plans: Seq<GatePlan<P>>) -> bool {
    exists|i: int| 0 <= i < plans.len() && #[trigger] plans[i].fallback
}

/// The gates of a run: one per configuration entry, then a fallback gate from the
/// command-line rules when no entry is a fallback and the command line has rules.
pub open spec fn gate_plan<P>(args: Args<P>, config: Option<FileConfig<P>>) -> Result<Seq<GatePlan<P>>, Seq<char>> {
    let base = match config {
        Some(c) => plan_entries(args, c.gates@),
        None => Ok(seq![]),
    };
    match base {
        Err(e) => Err(e),
        Ok(plans) => {
            let has_fb = has_fallback_plan(plans);
            let all = if !has_fb && cli_has_rules(args) {
                plans.push(
                    GatePlan {
                        label: None,
                        rules: resolved_rules(args, None, None, true),
                        fallback: true,
                        includes: seq![],
                        excludes: seq![],
                    },
                )
            } else {
                plans
            };
            if all.len() == 0 {
                Err(no_gates_message())
            } else {
                Ok(all)
            }
        },
    }
}

/// The matcher was built with root `root` from the patterns `includes` and
/// `excludes`, and carries the repository ignore rules of `ignores`.
pub open spec fn matcher_built_from(
    m: PathMatcher,
    root: Seq<char>,
    includes: Seq<Seq<char>>,
    excludes: Seq<Seq<char>>,
    ignores: ignore::gitignore::Gitignore,
) -> bool {
    &&& is_matcher_of(m.include_set, root, includes)
    &&& is_matcher_of(m.exclude_set, root, excludes)
    &&& matcher_root(m.repo_ignores) == matcher_root(ignores)
    &&& matcher_lines(m.repo_ignores) == matcher_lines(ignores)
}

/// `gates` carry the labels, rules and scoping of `plans`; each scoped gate
/// matches paths under `root` by its entry's patterns and the ignore rules of
/// `ignores`.
pub open spec fn gates_follow_plan<P>(
    gates: Seq<ConfiguredGate<P>>,
    plans: Seq<GatePlan<P>>,
    root: Seq<char>,
    ignores: ignore::gitignore::Gitignore,
) -> bool {
    &&& gates.len() == plans.len()
    &&& forall|i: int| 0 <= i < gates.len() ==> {
        &&& opt_view(#[trigger] gates[i].label) == plans[i].label
        &&& gates[i].rules@ == plans[i].rules
        &&& gates[i].is_fallback_spec() == plans[i].fallback
        &&& (gates[i].matcher matches Some(m) ==> matcher_built_from(
            m,
            root,
            plans[i].includes,
            plans[i].excludes,
            ignores,
        ))
    }
}

/// Why the gates of the first entries cannot be built, if they cannot: for each
/// entry in order, the error of its plan (an entry without rules), else, for a
/// scoped entry, why its path matcher cannot be built relative to `root`.
pub open spec fn entries_failure<P>(args: Args<P>, root: Seq<char>, gates: Seq<GateEntryConfig<P>>) -> Option<
    Seq<char>,
>
    decreases gates.len(),
{
    if gates.len() == 0 {
        None
    } else {
        match entries_failure(args, root, gates.drop_last()) {
            Some(m) => Some(m),
            None => match plan_entry(args, gates.last(), (gates.len() - 1) as nat) {
                Err(e) => Some(e),
                Ok(p) => if p.fallback {
                    None
                } else {
                    matcher_failure(root, p.includes, p.excludes)
                },
            },
        }
    }
}

/// The message with which resolving the gates fails, if it does: that of the
/// first entry that fails, else that of `gate_plan`.
pub open spec fn gates_failure<P>(args: Args<P>, config: Option<FileConfig<P>>, root: Seq<char>) -> Option<
    Seq<char>,
> {
    let entries = match config {
        Some(c) => entries_failure(args, root, c.gates@),
        None => None,
    };
    match entries {
        Some(m) => Some(m),
        None => match gate_plan(args, config) {
            Err(e) => Some(e),
            Ok(_) => None,
        },
    }
}

proof fn lemma_entries_failure_stuck<P>(args: Args<P>, root: Seq<char>, gates: Seq<GateEntryConfig<P>>, i: int)
    requires
        0 <= i <= gates.len(),
        entries_failure(args, root, gates.subrange(0, i)) is Some,
    ensures
        entries_failure(args, root, gates) == entries_failure(args, root, gates.subrange(0, i)),
    decreases gates.len() - i,
{
    if i < gates.len() {
        assert(gates.subrange(0, i + 1).drop_last() =~= gates.subrange(0, i));
        lemma_entries_failure_stuck(args, root, gates, i + 1);
    } else {
        assert(gates.subrange(0, i) =~= gates);
    }
}


proof fn lemma_plan_entries_stuck<P>(args: Args<P>, gates: Seq<GateEntryConfig<P>>, i: int)
    requires
        0 <= i <= gates.len(),
        plan_entries(args, gates.subrange(0, i)) is Err,
    ensures
        plan_entries(args, gates) == plan_entries(args, gates.subrange(0, i)),
    decreases gates.len() - i,
{
    if i < gates.len() {
        assert(gates.subrange(0, i + 1).drop_last() =~= gates.subrange(0, i));
        lemma_plan_entries_stuck(args, gates, i + 1);
    } else {
        assert(gates.subrange(0, i) =~= gates);
    }
}

fn no_rules_error(name: &Option<String>, index: usize) -> (e: CovgateError)
    requires
        index < usize::MAX,
    ensures
        e.message@ == no_rules_message(match name {
            Some(n) => n@,
            None => numbered_gate_label(index as nat + 1),
        }),
{
    let mut msg = String::new();
    push_str(&mut msg, "gate `");
    match name {
        Some(n) => push_str(&mut msg, n.as_str()),
        None => {
            let l = gate_number_label(index + 1);
            push_str(&mut msg, l.as_str());
        },
    }
    push_str(&mut msg, "` has no rules configured");
    assert(msg@ =~= no_rules_message(match name {
        Some(n) => n@,
        None => numbered_gate_label(index as nat + 1),
    }));
    CovgateError { message: msg }
}

/// The gates of a run from the command line and the configuration. Scoped gates
/// match paths relative to `match_root`, minus what `repo_ignores` ignores.
pub fn resolve_gates<P: Copy>(
    args: &Args<P>,
    file_config: Option<&FileConfig<P>>,
    match_root: &str,
    repo_ignores: &ignore::gitignore::Gitignore,
) -> (r: Result<Vec<ConfiguredGate<P>>, CovgateError>)
    ensures
        ({
            let config = match file_config {
                Some(c) => Some(*c),
                None => None,
            };
            match gates_failure(*args, config, match_root@) {
                Some(msg) => r matches Err(e) && e.message@ == msg,
                None => r matches Ok(gates) && gate_plan(*args, config) matches Ok(plans) && gates_follow_plan(
                    gates@,
                    plans,
                    match_root@,
                    *repo_ignores,
                ),
            }
        }),
{
    let ghost config_opt = match file_config {
        Some(c) => Some(*c),
        None => None::<FileConfig<P>>,
    };
    let mut configured: Vec<ConfiguredGate<P>> = Vec::new();
    let mut has_fallback = false;
    let ghost mut plans: Seq<GatePlan<P>> = seq![];
    if let Some(config) = file_config {
        let gates = &config.gates;
        let mut i: usize = 0;
        assert(gates@.subrange(0, 0) =~= Seq::<GateEntryConfig<P>>::empty());
        while i < gates.len()
            invariant
                i <= gates@.len(),
                gates@ == config.gates@,
                config_opt == Some(*config),
                config_opt == (match file_config {
                    Some(c) => Some(*c),
                    None => None::<FileConfig<P>>,
                }),
                plan_entries(*args, gates@.subrange(0, i as int)) == Ok::<Seq<GatePlan<P>>, Seq<char>>(plans),
                entries_failure(*args, match_root@, gates@.subrange(0, i as int)) is None,
                gates_follow_plan(configured@, plans, match_root@, *repo_ignores),
                has_fallback == has_fallback_plan(plans),
            decreases gates@.len() - i,
        {
            proof {
                assert(gates@.subrange(0, i + 1).drop_last() =~= gates@.subrange(0, i as int));
                assert(gates@.subrange(0, i + 1).last() == gates@[i as int]);
            }
            let gate = &gates[i];
            let is_fallback = gate.includes.len() == 0;
            let rules = resolve_gate_rules(
                args,
                if is_fallback { Some(&gate.rules) } else { None },
                Some(&gate.rules),
                is_fallback,
            );
            if rules.len() == 0 {
                let e = no_rules_error(&gate.name, i);
                proof {
                    assert(plan_entry(*args, gates@[i as int], i as nat) == Err::<GatePlan<P>, Seq<char>>(e.message@));
                    assert(plan_entries(*args, gates@.subrange(0, i + 1)) == Err::<Seq<GatePlan<P>>, Seq<char>>(e.message@));
                    lemma_plan_entries_stuck(*args, gates@, i as int + 1);
                    assert(gate_plan(*args, config_opt) == Err::<Seq<GatePlan<P>>, Seq<char>>(e.message@));
                    assert(entries_failure(*args, match_root@, gates@.subrange(0, i + 1)) == Some(e.message@));
                    lemma_entries_failure_stuck(*args, match_root@, gates@, i as int + 1);
                }
                return Err(e);
            }
            let matcher = if is_fallback {
                None
            } else {
                let m = PathMatcher::new(
                    match_root,
                    gate.includes.as_slice(),
                    gate.excludes.as_slice(),
                    gitignore_clone(repo_ignores),
                );
                match m {
                    Ok(m) => Some(m),
                    Err(e) => {
                        proof {
                            let pl = plan_entry(*args, gates@[i as int], i as nat);
                            assert(pl matches Ok(pp) && !pp.fallback && pp.includes == string_views(gate.includes@)
                                && pp.excludes == string_views(gate.excludes@));
                            assert(entries_failure(*args, match_root@, gates@.subrange(0, i + 1)) == Some(e.message@));
                            lemma_entries_failure_stuck(*args, match_root@, gates@, i as int + 1);
                        }
                        return Err(e);
                    },
                }
            };
            let label = match &gate.name {
                Some(n) => Some(n.clone()),
                None => derive_scoped_gate_label(gate.includes.as_slice(), i + 1),
            };
            let ghost plan_i = GatePlan {
                label: opt_view(label),
                rules: rules@,
                fallback: is_fallback,
                includes: string_views(gate.includes@),
                excludes: string_views(gate.excludes@),
            };
            assert(plan_entry(*args, gates@[i as int], i as nat) == Ok::<GatePlan<P>, Seq<char>>(plan_i));
            let ghost before = configured@;
            configured.push(ConfiguredGate::new(label, rules, matcher));
            proof {
                let old_plans = plans;
                plans = plans.push(plan_i);
                assert forall|j: int| 0 <= j < configured@.len() implies {
                    &&& opt_view(#[trigger] configured@[j].label) == plans[j].label
                    &&& configured@[j].rules@ == plans[j].rules
                    &&& configured@[j].is_fallback_spec() == plans[j].fallback
                    &&& (configured@[j].matcher matches Some(m) ==> matcher_built_from(
                        m,
                        match_root@,
                        plans[j].includes,
                        plans[j].excludes,
                        *repo_ignores,
                    ))
                } by {
                    if j < before.len() {
                        assert(configured@[j] == before[j]);
                    }
                }
                if is_fallback {
                    assert(plans[plans.len() - 1].fallback);
                }
                if has_fallback {
                    let w = choose|j: int| 0 <= j < old_plans.len() && #[trigger] old_plans[j].fallback;
                    assert(plans[w].fallback);
                }
                if !has_fallback && !is_fallback {
                    assert forall|j: int| 0 <= j < plans.len() implies !#[trigger] plans[j].fallback by {
                        if j < old_plans.len() {
                            assert(plans[j] == old_plans[j]);
                        }
                    }
                }
            }
            if is_fallback {
                has_fallback = true;
            }
            i = i + 1;
        }
        assert(gates@.subrange(0, gates@.len() as int) =~= gates@);
    }
    let ghost base_plans = plans;
    assert(match config_opt {
        Some(c) => plan_entries(*args, c.gates@),
        None => Ok(seq![]),
    } == Ok::<Seq<GatePlan<P>>, Seq<char>>(base_plans));
    assert(has_fallback == has_fallback_plan(base_plans));
    let cli_rules = has_cli_rules(args);
    if !has_fallback && cli_rules {
        let rules = resolve_gate_rules(args, None, None, true);
        let ghost plan_f = GatePlan {
            label: None::<Seq<char>>,
            rules: rules@,
            fallback: true,
            includes: seq![],
            excludes: seq![],
        };
        let ghost before = configured@;
        configured.push(ConfiguredGate::new(None, rules, None));
        proof {
            plans = plans.push(plan_f);
            assert forall|j: int| 0 <= j < configured@.len() implies {
                &&& opt_view(#[trigger] configured@[j].label) == plans[j].label
                &&& configured@[j].rules@ == plans[j].rules
                &&& configured@[j].is_fallback_spec() == plans[j].fallback
                &&& (configured@[j].matcher matches Some(m) ==> matcher_built_from(
                    m,
                    match_root@,
                    plans[j].includes,
                    plans[j].excludes,
                    *repo_ignores,
                ))
            } by {
                if j < before.len() {
                    assert(configured@[j] == before[j]);
                }
            }
        }
    }
    assert(plans == if !has_fallback && cli_rules {
        base_plans.push(
            GatePlan {
                label: None::<Seq<char>>,
                rules: resolved_rules(*args, None, None, true),
                fallback: true,
                includes: seq![],
                excludes: seq![],
            },
        )
    } else {
        base_plans
    });
    if configured.len() == 0 {
        assert(gate_plan(*args, config_opt) == Err::<Seq<GatePlan<P>>, Seq<char>>(no_gates_message()));
        return Err(CovgateError::new(
            "at least one rule (e.g., --fail-under-regions or --fail-uncovered-regions) is required unless covgate.toml defines a supported [[gates]] entry",
        ));
    }
    assert(configured@.len() == plans.len());
    assert(plans.len() > 0);
    assert(cli_rules == cli_has_rules(*args));
    assert(gate_plan(*args, config_opt) == Ok::<Seq<GatePlan<P>>, Seq<char>>(plans));
    Ok(configured)
}

} // verus!
