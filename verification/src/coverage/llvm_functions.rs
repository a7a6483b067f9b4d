//! Function records of an LLVM export: identities from demangled symbol names,
//! the span a function covers, and the file it belongs to.
use vstd::prelude::*;

use crate::coverage::llvm::{LlvmFunction, LlvmFunctionRegion};
use crate::coverage::path::{relativized, relativize_absolute_path};
use crate::render::split_on;
use crate::sorted::strict_total;
use crate::text::{
    chars_equal, chars_of, find_sub, index_of_sub, is_suffix, lemma_find_sub_from, lemma_str_order, slice_chars,
    str_less, str_lt, string_from_chars,
};

verus! {

/// What `rustc_demangle::try_demangle(name)` formatted with `{:#}` gives: the
/// demangled symbol without its hash, or none when `name` is not a Rust symbol.
pub uninterp spec fn demangled_symbol(name: Seq<char>) -> Option<Seq<char>>;

/// Calls `rustc_demangle::try_demangle` and formats a demangled symbol with the
/// alternate flag, which leaves out the hash. Which text that is, is named, not stated.
#[verifier::external_body]
fn try_demangle_alternate(name: &str) -> (r: Option<String>)
    ensures
        match r {
            Some(s) => demangled_symbol(name@) == Some(s@),
            None => demangled_symbol(name@) is None,
        },
{
    match rustc_demangle::try_demangle(name) {
        Ok(d) => Some(format!("{d:#}")),
        Err(_) => None,
    }
}

/// The identity of a symbol: its demangled form when there is one, else the name itself.
pub open spec fn symbol_identity(name: Seq<char>, demangled: Option<Seq<char>>) -> Seq<char> {
    match demangled {
        Some(d) => d,
        None => name,
    }
}

/// The identity of the function with the symbol `name`.
pub open spec fn llvm_identity(name: Seq<char>) -> Seq<char> {
    symbol_identity(name, demangled_symbol(name))
}

/// The identity of a symbol from what demangling gave for it.
pub fn identity_from_demangled(name: &str, demangled: Option<String>) -> (r: String)
    ensures
        r@ == symbol_identity(
            name@,
            match demangled {
                Some(d) => Some(d@),
                None => None,
            },
        ),
{
    match demangled {
        Some(d) => d,
        None => {
            let v = chars_of(name);
            string_from_chars(v.as_slice())
        },
    }
}

/// The identity of an LLVM function symbol: the demangled Rust path without its
/// hash, or the symbol as it is when it is not a Rust symbol.
pub fn normalize_llvm_function_name(name: &str) -> (r: String)
    ensures
        r@ == llvm_identity(name@),
{
    identity_from_demangled(name, try_demangle_alternate(name))
}

/// The parts of `s` between occurrences of `::`, as `str::split("::")` yields them.
pub open spec fn path_segments(s: Seq<char>) -> Seq<Seq<char>>
    decreases s.len(),
{
    match find_sub(s, "::"@) {
        Some(i) => if 0 <= i && i + 2 <= s.len() {
            seq![s.subrange(0, i)] + path_segments(s.subrange(i + 2, s.len() as int))
        } else {
            seq![s]
        },
        None => seq![s],
    }
}

/// A segment such as `{closure#0}`: starts with `{` and ends with `}`.
pub open spec fn is_braced(seg: Seq<char>) -> bool {
    seg.len() > 0 && seg[0] == '{' && seg.last() == '}'
}

/// An identity names a function of its own: no `::` segment of it is a closure,
/// shim or other braced segment.
pub open spec fn identity_is_named(name: Seq<char>) -> bool {
    forall|i: int| 0 <= i < path_segments(name).len() ==> !is_braced(#[trigger] path_segments(name)[i])
}

/// Whether an identity names a function of its own.
pub fn is_identity_named(name: &str) -> (r: bool)
    ensures
        r == identity_is_named(name@),
{
    let v = chars_of(name);
    let sep = chars_of("::");
    proof {
        reveal_strlit("::");
    }
    let mut rest: Vec<char> = v;
    let ghost done: Seq<Seq<char>> = seq![];
    loop
        invariant
            sep@ == "::"@,
            path_segments(name@) == done + path_segments(rest@),
            forall|i: int| 0 <= i < done.len() ==> !is_braced(#[trigger] done[i]),
        decreases rest@.len(),
    {
        let ghost r = rest@;
        proof {
            reveal_strlit("::");
            assert(sep@.len() == 2);
            lemma_find_sub_from(r, "::"@, 0);
        }
        match index_of_sub(rest.as_slice(), sep.as_slice()) {
            Some(i) => {
                assert(i + 2 <= rest@.len());
                assert(rest@.len() == rest.len());
                let seg = slice_chars(rest.as_slice(), 0, i);
                let braced = seg.len() > 0 && seg[0] == '{' && seg[seg.len() - 1] == '}';
                assert(braced == is_braced(seg@));
                let tail = slice_chars(rest.as_slice(), i + 2, rest.len());
                assert(path_segments(r) == seq![seg@] + path_segments(tail@));
                if braced {
                    assert(path_segments(name@)[done.len() as int] == seg@);
                    return false;
                }
                proof {
                    assert(done + path_segments(r) =~= done.push(seg@) + path_segments(tail@));
                    done = done.push(seg@);
                }
                rest = tail;
            },
            None => {
                let braced = rest.len() > 0 && rest[0] == '{' && rest[rest.len() - 1] == '}';
                assert(braced == is_braced(r));
                assert(path_segments(r) == seq![r]);
                if braced {
                    assert(path_segments(name@)[done.len() as int] == r);
                    return false;
                }
                assert forall|i: int| 0 <= i < path_segments(name@).len() implies !is_braced(
                    #[trigger] path_segments(name@)[i],
                ) by {
                    if i < done.len() {
                        assert(path_segments(name@)[i] == done[i]);
                    } else {
                        assert(path_segments(name@)[i] == r);
                    }
                }
                return true;
            },
        }
    }
}

/// `c` names the file `n` by a suffix that starts at a path separator, or is `n`.
pub open spec fn suffix_match(n: Seq<char>, c: Seq<char>) -> bool {
    n == c || (is_suffix(c, n) && n.len() > c.len() && n[n.len() - c.len() - 1] == '/')
}

/// The index of the longest of the first `k` known files that `n` ends with at a
/// path separator, the last of the longest on a tie.
pub open spec fn best_candidate(known: Seq<Seq<char>>, n: Seq<char>, k: nat) -> Option<int>
    decreases k,
{
    if k == 0 {
        None
    } else {
        let prev = best_candidate(known, n, (k - 1) as nat);
        if suffix_match(n, known[k - 1]) {
            match prev {
                Some(j) => if known[k - 1].len() >= known[j].len() {
                    Some(k - 1)
                } else {
                    Some(j)
                },
                None => Some(k - 1),
            }
        } else {
            prev
        }
    }
}

/// The file a function record belongs to: its first file name normalized, or the
/// known file that it names by the longest suffix.
pub open spec fn function_file(value: Seq<char>, root: Seq<char>, known: Seq<Seq<char>>) -> Seq<char> {
    let n = relativized(value, root);
    if known.contains(n) {
        n
    } else {
        match best_candidate(known, n, known.len()) {
            Some(j) => known[j],
            None => n,
        }
    }
}

proof fn lemma_best_bounds(known: Seq<Seq<char>>, n: Seq<char>, k: nat)
    requires
        k <= known.len(),
    ensures
        best_candidate(known, n, k) matches Some(j) ==> 0 <= j < k,
    decreases k,
{
    if k > 0 {
        lemma_best_bounds(known, n, (k - 1) as nat);
    }
}

/// Whether `c` names the file `n` by a separator-started suffix, or is `n`.
fn is_suffix_match(n: &Vec<char>, c: &Vec<char>) -> (r: bool)
    ensures
        r == suffix_match(n@, c@),
{
    if chars_equal(n.as_slice(), c.as_slice()) {
        return true;
    }
    if c.len() >= n.len() {
        return false;
    }
    let start = n.len() - c.len();
    let ok = crate::text::matches_at(n.as_slice(), start, c.as_slice());
    proof {
        assert(n@.subrange(start as int, n@.len() as int).subrange(0, c@.len() as int) =~= n@.subrange(
            start as int,
            n@.len() as int,
        ));
    }
    ok && n[start - 1] == '/'
}

/// The file a function record belongs to.
pub fn normalize_function_path(value: &str, repo_root: &str, known_file_paths: &Vec<String>) -> (r: String)
    ensures
        r@ == function_file(value@, repo_root@, crate::config::string_views(known_file_paths@)),
{
    let ghost known = crate::config::string_views(known_file_paths@);
    let normalized = relativize_absolute_path(value, repo_root);
    let nv = chars_of(normalized.as_str());
    let mut best: Option<usize> = None;
    let mut best_len: usize = 0;
    let mut contains = false;
    let mut k: usize = 0;
    while k < known_file_paths.len()
        invariant
            k <= known_file_paths@.len(),
            known == crate::config::string_views(known_file_paths@),
            nv@ == normalized@,
            contains == exists|j: int| 0 <= j < k && known[j] == nv@,
            match best {
                Some(j) => best_candidate(known, nv@, k as nat) == Some(j as int) && j < k && best_len == known[j as int].len(),
                None => best_candidate(known, nv@, k as nat) is None,
            },
        decreases known_file_paths@.len() - k,
    {
        let cv = chars_of(known_file_paths[k].as_str());
        assert(known[k as int] == cv@);
        if chars_equal(nv.as_slice(), cv.as_slice()) {
            contains = true;
        }
        if is_suffix_match(&nv, &cv) {
            match best {
                Some(j) => {
                    if cv.len() >= best_len {
                        best = Some(k);
                        best_len = cv.len();
                    }
                },
                None => {
                    best = Some(k);
                    best_len = cv.len();
                },
            }
        }
        k = k + 1;
    }
    proof {
        if contains {
            let j = choose|j: int| 0 <= j < k && known[j] == nv@;
            assert(known.contains(nv@));
        } else {
            assert(!known.contains(nv@)) by {
                if known.contains(nv@) {
                    let j = choose|j: int| 0 <= j < known.len() && known[j] == nv@;
                    assert(known[j] == nv@);
                }
            }
        }
    }
    if contains {
        return normalized;
    }
    match best {
        Some(j) => known_file_paths[j].clone(),
        None => normalized,
    }
}

/// What the regions of a function give: its start line and column, end line and
/// column, and whether any region ran.
pub type SpanState = (Option<u32>, Option<u32>, Option<u32>, Option<u32>, bool);

pub open spec fn or_value(o: Option<u32>, d: u32) -> u32 {
    match o {
        Some(v) => v,
        None => d,
    }
}

/// The span after one more region: the earliest start (the smallest column on
/// that line), the latest end (the largest column on that line).
pub open spec fn span_step(st: SpanState, r: LlvmFunctionRegion) -> SpanState {
    let (sl, sc) = if st.0 is None || r.line_start < st.0->Some_0 {
        (Some(r.line_start), Some(r.col_start))
    } else if st.0 == Some(r.line_start) {
        (st.0, Some(if or_value(st.1, r.col_start) <= r.col_start { or_value(st.1, r.col_start) } else { r.col_start }))
    } else {
        (st.0, st.1)
    };
    let (el, ec) = if st.2 is None || r.line_end > st.2->Some_0 {
        (Some(r.line_end), Some(r.col_end))
    } else if st.2 == Some(r.line_end) {
        (st.2, Some(if or_value(st.3, r.col_end) >= r.col_end { or_value(st.3, r.col_end) } else { r.col_end }))
    } else {
        (st.2, st.3)
    };
    (sl, sc, el, ec, st.4 || r.execution_count > 0)
}

/// The span of the first `k` regions.
pub open spec fn span_of(regions: Seq<LlvmFunctionRegion>, k: nat) -> SpanState
    decreases k,
{
    if k == 0 {
        (None, None, None, None, false)
    } else {
        span_step(span_of(regions, (k - 1) as nat), regions[k - 1])
    }
}

/// The span of a function's regions.
pub fn function_span(regions: &Vec<LlvmFunctionRegion>) -> (r: SpanState)
    ensures
        r == span_of(regions@, regions@.len()),
{
    let mut sl: Option<u32> = None;
    let mut sc: Option<u32> = None;
    let mut el: Option<u32> = None;
    let mut ec: Option<u32> = None;
    let mut covered = false;
    let mut k: usize = 0;
    while k < regions.len()
        invariant
            k <= regions@.len(),
            (sl, sc, el, ec, covered) == span_of(regions@, k as nat),
        decreases regions@.len() - k,
    {
        let r = regions[k];
        let start_earlier = match sl {
            None => true,
            Some(s) => r.line_start < s,
        };
        if start_earlier {
            sl = Some(r.line_start);
            sc = Some(r.col_start);
        } else if sl == Some(r.line_start) {
            let cur = match sc {
                Some(c) => c,
                None => r.col_start,
            };
            sc = Some(if cur <= r.col_start { cur } else { r.col_start });
        }
        let end_later = match el {
            None => true,
            Some(e) => r.line_end > e,
        };
        if end_later {
            el = Some(r.line_end);
            ec = Some(r.col_end);
        } else if el == Some(r.line_end) {
            let cur = match ec {
                Some(c) => c,
                None => r.col_end,
            };
            ec = Some(if cur >= r.col_end { cur } else { r.col_end });
        }
        covered = covered || r.execution_count > 0;
        k = k + 1;
    }
    (sl, sc, el, ec, covered)
}

/// The identity of a function record: a span, or a demangled name and a span.
/// A span-only key has an empty name.
pub struct FunctionKey {
    pub named: bool,
    pub name: String,
    pub start_line: u32,
    pub start_col: u32,
    pub end_line: u32,
    pub end_col: u32,
}

/// A function key as plain values.
pub type FnKeyView = (bool, Seq<char>, u32, u32, u32, u32);

pub open spec fn fkey_view(k: FunctionKey) -> FnKeyView {
    (k.named, k.name@, k.start_line, k.start_col, k.end_line, k.end_col)
}

/// The order of function keys: span-only keys first, then by name, start line,
/// start column, end line and end column.
pub open spec fn fkey_lt(a: FnKeyView, b: FnKeyView) -> bool {
    if a.0 != b.0 {
        !a.0
    } else if a.1 != b.1 {
        str_lt(a.1, b.1)
    } else if a.2 != b.2 {
        a.2 < b.2
    } else if a.3 != b.3 {
        a.3 < b.3
    } else if a.4 != b.4 {
        a.4 < b.4
    } else {
        a.5 < b.5
    }
}

pub open spec fn fkey_order() -> spec_fn(FnKeyView, FnKeyView) -> bool {
    |a: FnKeyView, b: FnKeyView| fkey_lt(a, b)
}

pub proof fn lemma_fkey_order_total()
    ensures
        strict_total(fkey_order()),
{
    assert forall|a: FnKeyView| #![trigger fkey_order()(a, a)] !fkey_order()(a, a) by {}
    assert forall|a: FnKeyView, b: FnKeyView, c: FnKeyView|
        #![trigger fkey_order()(a, b), fkey_order()(b, c)]
        fkey_order()(a, b) && fkey_order()(b, c) implies fkey_order()(a, c) by {
        lemma_str_order(a.1, b.1, c.1);
    }
    assert forall|a: FnKeyView, b: FnKeyView| #![trigger fkey_order()(a, b)] a != b implies fkey_order()(a, b)
        || fkey_order()(b, a) by {
        lemma_str_order(a.1, b.1, b.1);
    }
}

/// Whether key `a` sorts strictly before key `b`.
pub fn fkey_less(a: &FunctionKey, b: &FunctionKey) -> (r: bool)
    ensures
        r == fkey_lt(fkey_view(*a), fkey_view(*b)),
{
    if a.named != b.named {
        return !a.named;
    }
    let an = chars_of(a.name.as_str());
    let bn = chars_of(b.name.as_str());
    if !chars_equal(an.as_slice(), bn.as_slice()) {
        return str_less(an.as_slice(), bn.as_slice());
    }
    if a.start_line != b.start_line {
        return a.start_line < b.start_line;
    }
    if a.start_col != b.start_col {
        return a.start_col < b.start_col;
    }
    if a.end_line != b.end_line {
        return a.end_line < b.end_line;
    }
    a.end_col < b.end_col
}

/// Whether two keys are the same.
pub fn fkey_equal(a: &FunctionKey, b: &FunctionKey) -> (r: bool)
    ensures
        r == (fkey_view(*a) == fkey_view(*b)),
{
    a.named == b.named && crate::text::str_equal(a.name.as_str(), b.name.as_str()) && a.start_line == b.start_line
        && a.start_col == b.start_col && a.end_line == b.end_line && a.end_col == b.end_col
}

/// What a function record contributes: its file, its key and whether it ran. A
/// record without files or regions contributes nothing.
pub open spec fn function_entry(f: LlvmFunction, root: Seq<char>, known: Seq<Seq<char>>) -> Option<
    (Seq<char>, FnKeyView, bool),
> {
    if f.filenames@.len() == 0 {
        None
    } else {
        let path = function_file(f.filenames@[0]@, root, known);
        let st = span_of(f.regions@, f.regions@.len());
        if st.0 is Some && st.1 is Some && st.2 is Some && st.3 is Some {
            let (sl, sc, el, ec) = (st.0->Some_0, st.1->Some_0, st.2->Some_0, st.3->Some_0);
            let key = match f.name {
                Some(n) => (true, llvm_identity(n@), sl, sc, el, ec),
                None => (false, Seq::<char>::empty(), sl, sc, el, ec),
            };
            Some((path, key, f.count > 0 || st.4))
        } else {
            None
        }
    }
}

/// The file, key and coverage that a function record contributes, if any.
pub fn function_entry_of(f: &LlvmFunction, repo_root: &str, known_file_paths: &Vec<String>) -> (r: Option<
    (String, FunctionKey, bool),
>)
    ensures
        match function_entry(*f, repo_root@, crate::config::string_views(known_file_paths@)) {
            Some(e) => r matches Some(x) && x.0@ == e.0 && fkey_view(x.1) == e.1 && x.2 == e.2,
            None => r is None,
        },
        r matches Some(x) ==> (!x.1.named ==> x.1.name@ == Seq::<char>::empty()),
{
    if f.filenames.len() == 0 {
        return None;
    }
    let path = normalize_function_path(f.filenames[0].as_str(), repo_root, known_file_paths);
    let st = function_span(&f.regions);
    match st {
        (Some(sl), Some(sc), Some(el), Some(ec), region_covered) => {
            let key = match &f.name {
                Some(n) => FunctionKey {
                    named: true,
                    name: normalize_llvm_function_name(n.as_str()),
                    start_line: sl,
                    start_col: sc,
                    end_line: el,
                    end_col: ec,
                },
                None => FunctionKey {
                    named: false,
                    name: String::new(),
                    start_line: sl,
                    start_col: sc,
                    end_line: el,
                    end_col: ec,
                },
            };
            Some((path, key, f.count > 0 || region_covered))
        },
        _ => None,
    }
}


/// Position `a` (line, column) comes no later than position `b`.
pub open spec fn position_le(a: (u32, u32), b: (u32, u32)) -> bool {
    a.0 < b.0 || (a.0 == b.0 && a.1 <= b.1)
}

/// The span of the first `k` regions: none without regions; else it starts at the
/// earliest region start and ends at the latest region end, both reached by some
/// region, and it ran when some region ran.
proof fn lemma_span_of_bounds(regions: Seq<LlvmFunctionRegion>, k: nat)
    requires
        k <= regions.len(),
    ensures
        ({
            let st = span_of(regions, k);
            &&& st.4 == exists|i: int| 0 <= i < k && (#[trigger] regions[i]).execution_count > 0
            &&& k == 0 ==> st.0 is None && st.1 is None && st.2 is None && st.3 is None
            &&& k > 0 ==> {
                &&& st.0 is Some && st.1 is Some && st.2 is Some && st.3 is Some
                &&& forall|i: int|
                    0 <= i < k ==> position_le(
                        (st.0->Some_0, st.1->Some_0),
                        ((#[trigger] regions[i]).line_start, regions[i].col_start),
                    )
                &&& exists|i: int|
                    0 <= i < k && (#[trigger] regions[i]).line_start == st.0->Some_0 && regions[i].col_start
                        == st.1->Some_0
                &&& forall|i: int|
                    0 <= i < k ==> position_le(
                        ((#[trigger] regions[i]).line_end, regions[i].col_end),
                        (st.2->Some_0, st.3->Some_0),
                    )
                &&& exists|i: int|
                    0 <= i < k && (#[trigger] regions[i]).line_end == st.2->Some_0 && regions[i].col_end == st.3->Some_0
            }
        }),
    decreases k,
{
    if k > 0 {
        lemma_span_of_bounds(regions, (k - 1) as nat);
        let prev = span_of(regions, (k - 1) as nat);
        let st = span_of(regions, k);
        let r = regions[k - 1];
        if k == 1 {
            assert(regions[0] == r);
        } else {
            let si = choose|i: int|
                0 <= i < k - 1 && (#[trigger] regions[i]).line_start == prev.0->Some_0 && regions[i].col_start
                    == prev.1->Some_0;
            let ei = choose|i: int|
                0 <= i < k - 1 && (#[trigger] regions[i]).line_end == prev.2->Some_0 && regions[i].col_end
                    == prev.3->Some_0;
            if r.line_start < prev.0->Some_0 || (r.line_start == prev.0->Some_0 && r.col_start <= prev.1->Some_0) {
                assert(regions[k - 1].line_start == st.0->Some_0 && regions[k - 1].col_start == st.1->Some_0);
            } else {
                assert(regions[si].line_start == st.0->Some_0 && regions[si].col_start == st.1->Some_0);
            }
            if r.line_end > prev.2->Some_0 || (r.line_end == prev.2->Some_0 && r.col_end >= prev.3->Some_0) {
                assert(regions[k - 1].line_end == st.2->Some_0 && regions[k - 1].col_end == st.3->Some_0);
            } else {
                assert(regions[ei].line_end == st.2->Some_0 && regions[ei].col_end == st.3->Some_0);
            }
        }
    }
}

/// The span of a function's regions starts at the earliest region start (by line,
/// then column) and ends at the latest region end, both reached by some region,
/// and the function ran when any of its regions ran; a function without regions
/// has no span.
pub proof fn lemma_function_span_bounds(regions: Seq<LlvmFunctionRegion>)
    ensures
        ({
            let st = span_of(regions, regions.len());
            &&& st.4 == exists|i: int| 0 <= i < regions.len() && (#[trigger] regions[i]).execution_count > 0
            &&& regions.len() == 0 ==> st.0 is None && st.1 is None && st.2 is None && st.3 is None
            &&& regions.len() > 0 ==> {
                &&& st.0 is Some && st.1 is Some && st.2 is Some && st.3 is Some
                &&& forall|i: int|
                    0 <= i < regions.len() ==> position_le(
                        (st.0->Some_0, st.1->Some_0),
                        ((#[trigger] regions[i]).line_start, regions[i].col_start),
                    )
                &&& exists|i: int|
                    0 <= i < regions.len() && (#[trigger] regions[i]).line_start == st.0->Some_0
                        && regions[i].col_start == st.1->Some_0
                &&& forall|i: int|
                    0 <= i < regions.len() ==> position_le(
                        ((#[trigger] regions[i]).line_end, regions[i].col_end),
                        (st.2->Some_0, st.3->Some_0),
                    )
                &&& exists|i: int|
                    0 <= i < regions.len() && (#[trigger] regions[i]).line_end == st.2->Some_0
                        && regions[i].col_end == st.3->Some_0
            }
        }),
{
    lemma_span_of_bounds(regions, regions.len());
}

} // verus!
