//! Building a coverage report: per-file totals kept in path order, and the list of
//! metrics that have totals.
use vstd::prelude::*;

use crate::metrics::lists_totals;
use crate::model::{
    opportunity_view, CoverageOpportunity, FileTotals, FileTotalsList, MetricKind, OpportunityKind, OpportunityView,
    SourceSpan,
};
use crate::sorted::{
    copy_chars, key_views, lemma_key_views_sorted, lemma_lists_insert, lemma_lists_update, lemma_path_order_total,
    lists_map, locate, path_order,
};
use crate::coverage::llvm_report::count_true;
use crate::text::string_from_chars;

verus! {

/// Totals per file, by path.
pub type Totals = Map<Seq<char>, FileTotals>;

/// Totals per file kept in path order.
pub struct TotalsTable {
    pub keys: Vec<Vec<char>>,
    pub vals: Vec<FileTotals>,
}

/// The table lists the totals `m`.
pub open spec fn lists_table(t: TotalsTable, m: Totals) -> bool {
    lists_map(key_views(t.keys@), t.vals@, m)
}

/// Some file has totals.
pub open spec fn has_entries(m: Totals) -> bool {
    exists|k: Seq<char>| m.contains_key(k)
}

impl TotalsTable {
    /// An empty table.
    pub fn new() -> (t: TotalsTable)
        ensures
            lists_table(t, Map::empty()),
    {
        let t = TotalsTable { keys: Vec::new(), vals: Vec::new() };
        assert(key_views(t.keys@) =~= Seq::<Seq<char>>::empty());
        t
    }

    /// Sets the totals of `path`, replacing any it had.
    pub fn put(&mut self, path: &[char], totals: FileTotals, Ghost(m): Ghost<Totals>)
        requires
            lists_table(*old(self), m),
        ensures
            lists_table(*final(self), m.insert(path@, totals)),
    {
        let ghost ks = key_views(self.keys@);
        proof {
            lemma_key_views_sorted(self.keys@);
            lemma_path_order_total();
        }
        let (p, found) = locate(&self.keys, path);
        if found {
            assert(ks[p as int] == path@);
            proof {
                lemma_lists_update(ks, self.vals@, m, path_order(), p as int, totals);
            }
            self.vals.set(p, totals);
        } else {
            proof {
                lemma_lists_insert(ks, self.vals@, m, path_order(), p as int, path@, totals);
            }
            let nk = copy_chars(path);
            self.keys.insert(p, nk);
            self.vals.insert(p, totals);
            assert(key_views(self.keys@) =~= ks.insert(p as int, path@));
        }
    }

    /// Whether some file has totals.
    pub fn has_any(&self, Ghost(m): Ghost<Totals>) -> (r: bool)
        requires
            lists_table(*self, m),
        ensures
            r == has_entries(m),
    {
        if self.keys.len() > 0 {
            assert(m.contains_key(key_views(self.keys@)[0]));
            true
        } else {
            assert(!has_entries(m)) by {
                if has_entries(m) {
                    let k = choose|k: Seq<char>| m.contains_key(k);
                    let i = choose|i: int| 0 <= i < key_views(self.keys@).len() && #[trigger] key_views(self.keys@)[i] == k;
                }
            }
            false
        }
    }

    /// The table as a totals list.
    pub fn to_list(&self, Ghost(m): Ghost<Totals>) -> (r: FileTotalsList)
        requires
            lists_table(*self, m),
        ensures
            lists_totals(r@, m),
    {
        let ghost ks = key_views(self.keys@);
        let mut r: FileTotalsList = Vec::new();
        let mut i: usize = 0;
        while i < self.keys.len()
            invariant
                ks == key_views(self.keys@),
                lists_map(ks, self.vals@, m),
                i <= self.keys@.len(),
                r@.len() == i,
                forall|j: int| #![trigger r@[j]] 0 <= j < i ==> r@[j].0@ == ks[j] && r@[j].1 == self.vals@[j],
            decreases self.keys@.len() - i,
        {
            assert(ks[i as int] == self.keys@[i as int]@);
            let s = string_from_chars(self.keys[i].as_slice());
            r.push((s, self.vals[i]));
            i = i + 1;
        }
        assert(crate::metrics::totals_keys(r@) =~= ks);
        assert(crate::metrics::totals_vals(r@) =~= self.vals@);
        r
    }
}

/// The metrics of `ms` that have totals, in order.
pub open spec fn present_totals(ms: Seq<(MetricKind, Totals)>) -> Seq<(MetricKind, Totals)>
    decreases ms.len(),
{
    if ms.len() == 0 {
        seq![]
    } else {
        let prev = present_totals(ms.drop_last());
        if has_entries(ms.last().1) {
            prev.push(ms.last())
        } else {
            prev
        }
    }
}

/// `tb` lists the metrics of `ms` that have totals, in order, each with its totals.
pub open spec fn lists_report_totals(tb: Seq<(MetricKind, FileTotalsList)>, ms: Seq<(MetricKind, Totals)>) -> bool {
    &&& tb.len() == present_totals(ms).len()
    &&& forall|i: int|
        #![trigger tb[i]]
        0 <= i < tb.len() ==> tb[i].0 == present_totals(ms)[i].0 && lists_totals(tb[i].1@, present_totals(ms)[i].1)
}

/// Adds the totals of one more metric when it has any.
pub fn push_metric_totals(
    tb: Vec<(MetricKind, FileTotalsList)>,
    kind: MetricKind,
    table: &TotalsTable,
    Ghost(m): Ghost<Totals>,
    Ghost(ms): Ghost<Seq<(MetricKind, Totals)>>,
) -> (r: Vec<(MetricKind, FileTotalsList)>)
    requires
        lists_table(*table, m),
        lists_report_totals(tb@, ms),
    ensures
        lists_report_totals(r@, ms.push((kind, m))),
{
    let ghost ms2 = ms.push((kind, m));
    assert(ms2.drop_last() =~= ms);
    let mut tb = tb;
    if table.has_any(Ghost(m)) {
        let list = table.to_list(Ghost(m));
        let ghost before = tb@;
        tb.push((kind, list));
        proof {
            assert(present_totals(ms2) == present_totals(ms).push((kind, m)));
            assert forall|i: int| #![trigger tb@[i]] 0 <= i < tb@.len() implies tb@[i].0 == present_totals(ms2)[i].0
                && lists_totals(tb@[i].1@, present_totals(ms2)[i].1) by {
                if i < before.len() {
                    assert(tb@[i] == before[i]);
                }
            }
            assert(tb@.len() == present_totals(ms2).len());
            assert(lists_report_totals(tb@, ms2));
        }
    } else {
        assert(present_totals(ms2) == present_totals(ms));
        assert forall|i: int| #![trigger tb@[i]] 0 <= i < tb@.len() implies tb@[i].0 == present_totals(ms2)[i].0
            && lists_totals(tb@[i].1@, present_totals(ms2)[i].1) by {
            assert(tb@[i].0 == present_totals(ms)[i].0);
        }
        assert(tb@.len() == present_totals(ms2).len());
        assert(lists_report_totals(tb@, ms2));
    }
    tb
}

/// The opportunity with the given plain values.
pub fn make_opportunity(
    kind: OpportunityKind,
    path: &String,
    start_line: u32,
    end_line: u32,
    start_col: Option<u32>,
    end_col: Option<u32>,
    covered: bool,
    is_named_function: Option<bool>,
    named_function_identity: Option<String>,
) -> (o: CoverageOpportunity)
    ensures
        opportunity_view(o) == (
            kind,
            path@,
            start_line,
            end_line,
            start_col,
            end_col,
            covered,
            is_named_function,
            match named_function_identity {
                Some(s) => Some(s@),
                None => None,
            },
        ),
{
    CoverageOpportunity {
        kind,
        span: SourceSpan { path: path.clone(), start_line, end_line, start_col, end_col },
        covered,
        is_named_function,
        named_function_identity,
    }
}


/// How many of `ops` are of kind `k` and lie in file `p`.
pub open spec fn count_ops(ops: Seq<OpportunityView>, k: OpportunityKind, p: Seq<char>) -> nat
    decreases ops.len(),
{
    if ops.len() == 0 {
        0
    } else {
        count_ops(ops.drop_last(), k, p) + if ops.last().0 == k && ops.last().1 == p {
            1nat
        } else {
            0nat
        }
    }
}

/// How many of `ops` are of kind `k`, lie in file `p` and are covered.
pub open spec fn count_covered_ops(ops: Seq<OpportunityView>, k: OpportunityKind, p: Seq<char>) -> nat
    decreases ops.len(),
{
    if ops.len() == 0 {
        0
    } else {
        count_covered_ops(ops.drop_last(), k, p) + if ops.last().0 == k && ops.last().1 == p && ops.last().6 {
            1nat
        } else {
            0nat
        }
    }
}

/// The totals `t` count the opportunities of kind `k` in `ops`: each file that has
/// totals has at least one opportunity, no more covered than there are, and its
/// totals are the number of its opportunities of that kind and of those covered;
/// a file without totals has no opportunity of that kind.
pub open spec fn totals_count_ops(t: Totals, ops: Seq<OpportunityView>, k: OpportunityKind) -> bool {
    &&& (forall|p: Seq<char>|
        #![trigger t.contains_key(p)]
        t.contains_key(p) ==> {
            &&& 1 <= t[p].total
            &&& t[p].covered <= t[p].total
            &&& t[p].total as nat == count_ops(ops, k, p)
            &&& t[p].covered as nat == count_covered_ops(ops, k, p)
        })
    &&& (forall|p: Seq<char>| #![trigger count_ops(ops, k, p)] !t.contains_key(p) ==> count_ops(ops, k, p) == 0)
}

/// Every opportunity of `vs` is of kind `k`, lies in file `p`, and is covered as
/// `flags` says.
pub open spec fn is_block(vs: Seq<OpportunityView>, k: OpportunityKind, p: Seq<char>, flags: Seq<bool>) -> bool {
    &&& vs.len() == flags.len()
    &&& forall|i: int| 0 <= i < vs.len() ==> (#[trigger] vs[i]).0 == k && vs[i].1 == p && vs[i].6 == flags[i]
}

pub proof fn lemma_count_true_bound(flags: Seq<bool>)
    ensures
        count_true(flags) <= flags.len(),
    decreases flags.len(),
{
    if flags.len() > 0 {
        lemma_count_true_bound(flags.drop_last());
    }
}

pub proof fn lemma_count_ops_bound(ops: Seq<OpportunityView>, k: OpportunityKind, p: Seq<char>)
    ensures
        count_covered_ops(ops, k, p) <= count_ops(ops, k, p) <= ops.len(),
    decreases ops.len(),
{
    if ops.len() > 0 {
        lemma_count_ops_bound(ops.drop_last(), k, p);
    }
}

pub proof fn lemma_count_ops_add(a: Seq<OpportunityView>, b: Seq<OpportunityView>, k: OpportunityKind, p: Seq<char>)
    ensures
        count_ops(a + b, k, p) == count_ops(a, k, p) + count_ops(b, k, p),
        count_covered_ops(a + b, k, p) == count_covered_ops(a, k, p) + count_covered_ops(b, k, p),
    decreases b.len(),
{
    if b.len() > 0 {
        lemma_count_ops_add(a, b.drop_last(), k, p);
        assert((a + b).drop_last() =~= a + b.drop_last());
        assert((a + b).last() == b.last());
    } else {
        assert(a + b =~= a);
    }
}

/// A block of file `p` and kind `k` counts its length and its covered flags there,
/// and nothing elsewhere.
pub proof fn lemma_block_counts(vs: Seq<OpportunityView>, k: OpportunityKind, p: Seq<char>, flags: Seq<bool>, j: OpportunityKind, q: Seq<char>)
    requires
        is_block(vs, k, p, flags),
    ensures
        count_ops(vs, j, q) == if j == k && q == p {
            flags.len()
        } else {
            0
        },
        count_covered_ops(vs, j, q) == if j == k && q == p {
            count_true(flags)
        } else {
            0
        },
    decreases vs.len(),
{
    if vs.len() > 0 {
        assert(vs.last() == vs[vs.len() - 1]);
        assert(is_block(vs.drop_last(), k, p, flags.drop_last())) by {
            assert forall|i: int| 0 <= i < vs.drop_last().len() implies (#[trigger] vs.drop_last()[i]).0 == k
                && vs.drop_last()[i].1 == p && vs.drop_last()[i].6 == flags.drop_last()[i] by {
                assert(vs.drop_last()[i] == vs[i]);
            }
        }
        lemma_block_counts(vs.drop_last(), k, p, flags.drop_last(), j, q);
    }
}

/// Setting the totals of a file `p` that had no opportunity, from the flags of the
/// opportunities that `extra` adds to it, keeps the totals counting the
/// opportunities of kind `k`.
pub proof fn lemma_put_counts(
    t: Totals,
    ops: Seq<OpportunityView>,
    extra: Seq<OpportunityView>,
    k: OpportunityKind,
    p: Seq<char>,
    flags: Seq<bool>,
)
    requires
        totals_count_ops(t, ops, k),
        count_ops(ops, k, p) == 0,
        count_ops(extra, k, p) == flags.len(),
        count_covered_ops(extra, k, p) == count_true(flags),
        forall|q: Seq<char>| q != p ==> #[trigger] count_ops(extra, k, q) == 0,
        ops.len() + extra.len() <= usize::MAX,
    ensures
        totals_count_ops(
            if flags.len() > 0 {
                t.insert(p, FileTotals { covered: count_true(flags) as usize, total: flags.len() as usize })
            } else {
                t
            },
            ops + extra,
            k,
        ),
{
    let t2 = if flags.len() > 0 {
        t.insert(p, FileTotals { covered: count_true(flags) as usize, total: flags.len() as usize })
    } else {
        t
    };
    lemma_count_true_bound(flags);
    lemma_count_ops_bound(extra, k, p);
    assert forall|q: Seq<char>| #![trigger t2.contains_key(q)] t2.contains_key(q) implies {
        &&& 1 <= t2[q].total
        &&& t2[q].covered <= t2[q].total
        &&& t2[q].total as nat == count_ops(ops + extra, k, q)
        &&& t2[q].covered as nat == count_covered_ops(ops + extra, k, q)
    } by {
        lemma_count_ops_add(ops, extra, k, q);
        lemma_count_ops_bound(extra, k, q);
        lemma_count_ops_bound(ops, k, q);
        if q != p {
            assert(count_ops(extra, k, q) == 0);
        }
    }
    assert forall|q: Seq<char>| #![trigger count_ops(ops + extra, k, q)] !t2.contains_key(q) implies count_ops(
        ops + extra,
        k,
        q,
    ) == 0 by {
        lemma_count_ops_add(ops, extra, k, q);
        if q != p {
            assert(count_ops(extra, k, q) == 0);
        }
    }
    assert(totals_count_ops(t2, ops + extra, k));
}

} // verus!
