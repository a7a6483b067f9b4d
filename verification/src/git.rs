//! The decisions around Git: which base ref to diff against, how Git's output is
//! read, and when a recorded base is refreshed. Running Git is left to the caller,
//! which hands in what Git answered.
use vstd::prelude::*;

use crate::error::CovgateError;
use crate::text::{chars_of, lines_of, next_line, push_str, string_from_chars};

verus! {

/// The ref under which `record-base` keeps the base commit of a worktree.
pub open spec fn recorded_base_ref() -> Seq<char> {
    "refs/worktree/covgate/base"@
}

/// The refs tried as the diff base, in order, before any recorded base.
pub open spec fn standard_base_refs() -> Seq<Seq<char>> {
    seq!["origin/HEAD"@, "origin/main"@, "origin/master"@, "main"@, "master"@]
}

/// Every ref tried as the diff base, in order: the standard ones, then the recorded base.
pub open spec fn base_ref_candidates() -> Seq<Seq<char>> {
    standard_base_refs().push(recorded_base_ref())
}

/// The `i`-th ref tried as the diff base.
fn base_ref_candidate(i: usize) -> (r: &'static str)
    requires
        i < 6,
    ensures
        r@ == base_ref_candidates()[i as int],
{
    proof {
        reveal_strlit("origin/HEAD");
        reveal_strlit("origin/main");
        reveal_strlit("origin/master");
        reveal_strlit("main");
        reveal_strlit("master");
        reveal_strlit("refs/worktree/covgate/base");
    }
    if i == 0 {
        "origin/HEAD"
    } else if i == 1 {
        "origin/main"
    } else if i == 2 {
        "origin/master"
    } else if i == 3 {
        "main"
    } else if i == 4 {
        "master"
    } else {
        "refs/worktree/covgate/base"
    }
}

/// Resolving the `j`-th candidate may have answered `res`.
pub open spec fn resolved_as<F: Fn(&str) -> Result<Option<String>, CovgateError>>(
    resolve_ref: F,
    j: int,
    res: Result<Option<String>, CovgateError>,
) -> bool {
    exists|s: &str| s@ == base_ref_candidates()[j] && #[trigger] call_ensures(resolve_ref, (s,), res)
}

/// Resolving the `j`-th candidate may have answered that it does not resolve.
pub open spec fn resolved_none<F: Fn(&str) -> Result<Option<String>, CovgateError>>(resolve_ref: F, j: int) -> bool {
    resolved_as(resolve_ref, j, Ok(None))
}

/// Resolving the `j`-th candidate may have answered the commit `sha`.
pub open spec fn resolved_sha<F: Fn(&str) -> Result<Option<String>, CovgateError>>(
    resolve_ref: F,
    j: int,
    sha: String,
) -> bool {
    resolved_as(resolve_ref, j, Ok(Some(sha)))
}

/// Resolving the `j`-th candidate may have failed with `e`.
pub open spec fn resolved_err<F: Fn(&str) -> Result<Option<String>, CovgateError>>(
    resolve_ref: F,
    j: int,
    e: CovgateError,
) -> bool {
    resolved_as(resolve_ref, j, Err(e))
}

/// Resolving each of the first `k` candidates may have answered that it does not resolve.
pub open spec fn none_before<F: Fn(&str) -> Result<Option<String>, CovgateError>>(resolve_ref: F, k: int) -> bool {
    forall|j: int| 0 <= j < k ==> #[trigger] resolved_none(resolve_ref, j)
}

/// A scan of the first `n` candidates may have found candidate `i` first, resolving to `sha`.
pub open spec fn scan_found<F: Fn(&str) -> Result<Option<String>, CovgateError>>(
    resolve_ref: F,
    n: int,
    i: int,
    sha: String,
) -> bool {
    0 <= i < n && resolved_sha(resolve_ref, i, sha) && none_before(resolve_ref, i)
}

/// A scan of the first `n` candidates may have ended with the failure `e` of the
/// first resolution that failed.
pub open spec fn scan_failed<F: Fn(&str) -> Result<Option<String>, CovgateError>>(
    resolve_ref: F,
    n: int,
    e: CovgateError,
) -> bool {
    exists|i: int| 0 <= i < n && #[trigger] resolved_err(resolve_ref, i, e) && none_before(resolve_ref, i)
}

/// A scan of the first `n` candidates may have found the candidate named `name` first,
/// resolving to `sha`.
pub open spec fn found_base_ref<F: Fn(&str) -> Result<Option<String>, CovgateError>>(
    resolve_ref: F,
    n: int,
    name: Seq<char>,
    sha: String,
) -> bool {
    exists|i: int| name == base_ref_candidates()[i] && #[trigger] scan_found(resolve_ref, n, i, sha)
}

/// A scan of the first `n` candidates may have found the candidate named `name` first.
pub open spec fn discovered<F: Fn(&str) -> Result<Option<String>, CovgateError>>(
    resolve_ref: F,
    n: int,
    name: Seq<char>,
) -> bool {
    exists|sha: String| #[trigger] found_base_ref(resolve_ref, n, name, sha)
}

/// Tries the first `n` candidates in order with `resolve_ref`.
fn scan_base_refs<F: Fn(&str) -> Result<Option<String>, CovgateError>>(resolve_ref: &F, n: usize) -> (r: Result<
    Option<(usize, String)>,
    CovgateError,
>)
    requires
        n <= 6,
        forall|s: &str| call_requires(*resolve_ref, (s,)),
    ensures
        r matches Ok(Some(found)) ==> found.0 < n && scan_found(*resolve_ref, n as int, found.0 as int, found.1),
        r matches Ok(None) ==> none_before(*resolve_ref, n as int),
        r matches Err(e) ==> scan_failed(*resolve_ref, n as int, e),
{
    let mut i: usize = 0;
    while i < n
        invariant
            n <= 6,
            i <= n,
            forall|s: &str| call_requires(*resolve_ref, (s,)),
            none_before(*resolve_ref, i as int),
        decreases n - i,
    {
        let candidate = base_ref_candidate(i);
        let res = resolve_ref(candidate);
        assert(resolved_as(*resolve_ref, i as int, res));
        match res {
            Ok(Some(sha)) => {
                assert(resolved_sha(*resolve_ref, i as int, sha));
                return Ok(Some((i, sha)));
            },
            Ok(None) => {
                assert(resolved_none(*resolve_ref, i as int));
            },
            Err(e) => {
                assert(resolved_err(*resolve_ref, i as int, e));
                return Err(e);
            },
        }
        i = i + 1;
    }
    Ok(None)
}

/// The first standard base ref that resolves, with the commit it resolves to.
/// Each candidate is resolved with `resolve_ref`, in order; the first failure ends
/// the scan with its error.
pub fn find_first_resolved_base_ref<F: Fn(&str) -> Result<Option<String>, CovgateError>>(resolve_ref: F) -> (r: Result<
    Option<(&'static str, String)>,
    CovgateError,
>)
    requires
        forall|s: &str| call_requires(resolve_ref, (s,)),
    ensures
        r matches Ok(Some(found)) ==> found_base_ref(resolve_ref, 5, found.0@, found.1),
        r matches Ok(None) ==> none_before(resolve_ref, 5),
        r matches Err(e) ==> scan_failed(resolve_ref, 5, e),
{
    match scan_base_refs(&resolve_ref, 5) {
        Ok(Some(found)) => {
            let name = base_ref_candidate(found.0);
            assert(scan_found(resolve_ref, 5, found.0 as int, found.1));
            Ok(Some((name, found.1)))
        },
        Ok(None) => Ok(None),
        Err(e) => Err(e),
    }
}

/// The base ref to diff against when none is given: the first of the standard
/// refs and then the recorded base that resolves with `resolve_ref`.
pub fn discover_base_ref<F: Fn(&str) -> Result<Option<String>, CovgateError>>(resolve_ref: F) -> (r: Result<
    Option<String>,
    CovgateError,
>)
    requires
        forall|s: &str| call_requires(resolve_ref, (s,)),
    ensures
        r matches Ok(Some(name)) ==> discovered(resolve_ref, 6, name@),
        r matches Ok(None) ==> none_before(resolve_ref, 6),
        r matches Err(e) ==> scan_failed(resolve_ref, 6, e),
{
    match scan_base_refs(&resolve_ref, 6) {
        Ok(Some(found)) => {
            let name = base_ref_candidate(found.0);
            let mut s = String::new();
            push_str(&mut s, name);
            assert(s@ =~= name@);
            assert(scan_found(resolve_ref, 6, found.0 as int, found.1));
            assert(found_base_ref(resolve_ref, 6, s@, found.1));
            Ok(Some(s))
        },
        Ok(None) => Ok(None),
        Err(e) => Err(e),
    }
}

/// The characters that `char::is_whitespace` accepts (Unicode `White_Space`).
pub open spec fn is_white_space(c: char) -> bool {
    c == ' ' || ('\t' <= c && c <= '\r') || c == '\u{85}' || c == '\u{A0}' || c == '\u{1680}' || ('\u{2000}' <= c
        && c <= '\u{200A}') || c == '\u{2028}' || c == '\u{2029}' || c == '\u{202F}' || c == '\u{205F}' || c
        == '\u{3000}'
}

/// `s` without leading whitespace.
pub open spec fn trim_front(s: Seq<char>) -> Seq<char>
    decreases s.len(),
{
    if s.len() > 0 && is_white_space(s[0]) {
        trim_front(s.drop_first())
    } else {
        s
    }
}

/// `s` without trailing whitespace.
pub open spec fn trim_back(s: Seq<char>) -> Seq<char>
    decreases s.len(),
{
    if s.len() > 0 && is_white_space(s.last()) {
        trim_back(s.drop_last())
    } else {
        s
    }
}

/// `s` without leading and trailing whitespace, as `str::trim` gives it.
pub open spec fn trimmed(s: Seq<char>) -> Seq<char> {
    trim_back(trim_front(s))
}

fn white_space(c: char) -> (r: bool)
    ensures
        r == is_white_space(c),
{
    c == ' ' || ('\t' <= c && c <= '\r') || c == '\u{85}' || c == '\u{A0}' || c == '\u{1680}' || ('\u{2000}' <= c
        && c <= '\u{200A}') || c == '\u{2028}' || c == '\u{2029}' || c == '\u{202F}' || c == '\u{205F}' || c
        == '\u{3000}'
}

/// `s` without leading and trailing whitespace.
pub fn trim_text(s: &str) -> (r: String)
    ensures
        r@ == trimmed(s@),
{
    let v = chars_of(s);
    let mut a: usize = 0;
    assert(v@.subrange(0, v@.len() as int) =~= v@);
    while a < v.len() && white_space(v[a])
        invariant
            a <= v@.len(),
            trim_front(v@) == trim_front(v@.subrange(a as int, v@.len() as int)),
        decreases v@.len() - a,
    {
        assert(v@.subrange(a as int, v@.len() as int).drop_first() =~= v@.subrange(a + 1, v@.len() as int));
        a = a + 1;
    }
    let ghost front = v@.subrange(a as int, v@.len() as int);
    assert(trim_front(front) == front);
    let mut b: usize = v.len();
    while b > a && white_space(v[b - 1])
        invariant
            a <= b <= v@.len(),
            front == v@.subrange(a as int, v@.len() as int),
            trim_back(front) == trim_back(v@.subrange(a as int, b as int)),
        decreases b,
    {
        assert(v@.subrange(a as int, b as int).drop_last() =~= v@.subrange(a as int, b - 1));
        b = b - 1;
    }
    let mut out: Vec<char> = Vec::new();
    let mut k: usize = a;
    while k < b
        invariant
            a <= k <= b,
            b <= v@.len(),
            out@ == v@.subrange(a as int, k as int),
        decreases b - k,
    {
        out.push(v[k]);
        assert(out@ =~= v@.subrange(a as int, k + 1));
        k = k + 1;
    }
    string_from_chars(out.as_slice())
}

/// The repository root that `git rev-parse --show-toplevel` printed: its output
/// trimmed, or none when that is empty.
pub fn repo_root_from_output(stdout: &str) -> (r: Option<String>)
    ensures
        trimmed(stdout@).len() == 0 ==> r is None,
        trimmed(stdout@).len() > 0 ==> (r matches Some(root) && root@ == trimmed(stdout@)),
{
    let root = trim_text(stdout);
    if root.as_str().is_empty() {
        None
    } else {
        Some(root)
    }
}

/// The untracked files that `git ls-files --others --exclude-standard` printed:
/// the lines of its trimmed output.
pub fn untracked_from_output(stdout: &str) -> (r: Vec<String>)
    ensures
        crate::config::string_views(r@) == lines_of(trimmed(stdout@)),
{
    let text = trim_text(stdout);
    let v = chars_of(text.as_str());
    let mut r: Vec<String> = Vec::new();
    let mut pos: usize = 0;
    assert(v@.subrange(0, v@.len() as int) =~= v@);
    while pos < v.len()
        invariant
            pos <= v@.len(),
            v@ == trimmed(stdout@),
            crate::config::string_views(r@) + lines_of(v@.subrange(pos as int, v@.len() as int)) == lines_of(v@),
        decreases v@.len() - pos,
    {
        let (line, next) = next_line(v.as_slice(), pos);
        let ghost before = crate::config::string_views(r@);
        r.push(string_from_chars(line.as_slice()));
        assert(crate::config::string_views(r@) =~= before.push(line@));
        assert(before + (seq![line@] + lines_of(v@.subrange(next as int, v@.len() as int))) =~= before.push(line@)
            + lines_of(v@.subrange(next as int, v@.len() as int)));
        pos = next;
    }
    let ghost empty: Seq<char> = seq![];
    assert(v@.subrange(v@.len() as int, v@.len() as int) =~= empty);
    assert(lines_of(empty) =~= Seq::<Seq<char>>::empty());
    assert(crate::config::string_views(r@) =~= crate::config::string_views(r@) + Seq::<Seq<char>>::empty());
    r
}

/// The branch that a recorded-base marker file names: its trimmed text, or none
/// when that is empty.
pub fn branch_from_marker(text: &str) -> (r: Option<String>)
    ensures
        trimmed(text@).len() == 0 ==> r is None,
        trimmed(text@).len() > 0 ==> (r matches Some(b) && b@ == trimmed(text@)),
{
    repo_root_from_output(text)
}

/// The text of a recorded-base marker file for `branch`.
pub fn branch_marker_text(branch: &str) -> (r: String)
    ensures
        r@ == branch@.push('\n'),
{
    let mut s = String::new();
    push_str(&mut s, branch);
    s.push('\n');
    s
}

/// Whether a recorded base is refreshed, when both the current branch and the
/// branch it was recorded for are known: it is when they differ. When either is
/// unknown, the answer is `None`, and the base is refreshed when it is not an
/// ancestor of `HEAD`.
pub fn refresh_by_branch(current: &Option<String>, recorded: &Option<String>) -> (r: Option<bool>)
    ensures
        (current, recorded) matches (Some(c), Some(b)) ==> r == Some(c@ != b@),
        !((current, recorded) matches (Some(c), Some(b))) ==> r is None,
{
    match (current, recorded) {
        (Some(c), Some(b)) => Some(!crate::text::str_equal(c.as_str(), b.as_str())),
        _ => None,
    }
}


/// How `record-base` begins: with nothing to do when a standard base ref
/// resolves (it reports that ref and its commit), else by recording a base.
#[derive(Debug)]
pub enum RecordStart {
    Unnecessary { base_ref: &'static str, sha: String },
    Proceed,
}

/// Decides how `record-base` begins from the result of the standard-ref scan
/// (`find_first_resolved_base_ref`): a resolved standard ref makes recording
/// unnecessary.
pub fn record_base_start(found: Option<(&'static str, String)>) -> (r: RecordStart)
    ensures
        match found {
            Some((base_ref, sha)) => r matches RecordStart::Unnecessary { base_ref: b, sha: s } && b@ == base_ref@
                && s@ == sha@,
            None => r is Proceed,
        },
{
    match found {
        Some((base_ref, sha)) => RecordStart::Unnecessary { base_ref, sha },
        None => RecordStart::Proceed,
    }
}

/// What `record-base` does next, once it knows whether a base is recorded.
#[derive(Debug)]
pub enum RecordAction {
    /// Ask whether the recorded commit is an ancestor of `HEAD`, then decide again.
    CheckAncestor,
    /// Point the recorded base at `HEAD` and, when `mark` names a branch, write the
    /// branch marker for it; `refreshed` tells a refresh from a first recording.
    Record { mark: Option<String>, refreshed: bool },
    /// Keep the recorded base and, when `mark` names a branch, write the branch
    /// marker for it.
    Keep { mark: Option<String> },
}

/// Whether a recorded base is refreshed: by the branches when both are known,
/// else by whether the recorded commit is an ancestor of `HEAD`, once that is known.
pub open spec fn record_refresh(current: Option<String>, recorded: Option<String>, ancestor: Option<bool>) -> Option<
    bool,
> {
    match (current, recorded) {
        (Some(c), Some(b)) => Some(c@ != b@),
        _ => match ancestor {
            Some(a) => Some(!a),
            None => None,
        },
    }
}

/// `r` is what `record-base` does next: record a first base (marking the current
/// branch), refresh a stale one, keep a current one (marking the current branch if
/// no branch was marked yet), or first ask about ancestry.
pub open spec fn is_record_action(
    current: Option<String>,
    existing: bool,
    recorded: Option<String>,
    ancestor: Option<bool>,
    r: RecordAction,
) -> bool {
    if !existing {
        r matches RecordAction::Record { mark, refreshed } && crate::config::opt_view(mark)
            == crate::config::opt_view(current) && !refreshed
    } else {
        match record_refresh(current, recorded, ancestor) {
            None => r is CheckAncestor,
            Some(true) => r matches RecordAction::Record { mark, refreshed } && crate::config::opt_view(mark)
                == crate::config::opt_view(current) && refreshed,
            Some(false) => r matches RecordAction::Keep { mark } && crate::config::opt_view(mark) == if recorded is None {
                crate::config::opt_view(current)
            } else {
                None
            },
        }
    }
}

fn copy_opt(o: &Option<String>) -> (r: Option<String>)
    ensures
        crate::config::opt_view(r) == crate::config::opt_view(*o),
{
    match o {
        Some(s) => Some(s.clone()),
        None => None,
    }
}

/// Decides the next step of `record-base` from the current branch, whether a base
/// is recorded, the branch it was recorded for, and, once asked, whether the
/// recorded commit is an ancestor of `HEAD`.
pub fn record_base_action(
    current: &Option<String>,
    existing: bool,
    recorded: &Option<String>,
    ancestor: Option<bool>,
) -> (r: RecordAction)
    ensures
        is_record_action(*current, existing, *recorded, ancestor, r),
{
    if !existing {
        return RecordAction::Record { mark: copy_opt(current), refreshed: false };
    }
    let refresh = match refresh_by_branch(current, recorded) {
        Some(by_branch) => by_branch,
        None => match ancestor {
            Some(a) => !a,
            None => {
                return RecordAction::CheckAncestor;
            },
        },
    };
    if refresh {
        RecordAction::Record { mark: copy_opt(current), refreshed: true }
    } else if recorded.is_none() {
        RecordAction::Keep { mark: copy_opt(current) }
    } else {
        RecordAction::Keep { mark: None }
    }
}

/// A branch name read back from the marker written for it is that name, so a
/// second recording on the same branch finds no branch change: for a nonempty
/// name without leading or trailing whitespace, trimming the marker text gives
/// the name.
pub proof fn lemma_marker_reads_back(branch: Seq<char>)
    requires
        branch.len() > 0,
        !is_white_space(branch[0]),
        !is_white_space(branch.last()),
    ensures
        trimmed(branch.push('\n')) == branch,
{
    let text = branch.push('\n');
    assert(text[0] == branch[0]);
    assert(trim_front(text) == text);
    assert(is_white_space(text.last()));
    assert(text.drop_last() =~= branch);
    assert(trim_back(text) == trim_back(branch));
    assert(trim_back(branch) == branch);
}

/// Recording a base twice on the same branch is idempotent: once a base is
/// recorded for the current branch, `record-base` keeps it and writes nothing.
pub proof fn lemma_record_base_idempotent(
    current: String,
    recorded: String,
    ancestor: Option<bool>,
    r: RecordAction,
)
    requires
        recorded@ == current@,
        is_record_action(Some(current), true, Some(recorded), ancestor, r),
    ensures
        r matches RecordAction::Keep { mark } && mark is None,
{
}


/// After a switch of branch, `record-base` refreshes the recorded base to `HEAD`
/// and marks it with the new branch.
pub proof fn lemma_record_base_refreshes_on_branch_switch(
    current: String,
    recorded: String,
    ancestor: Option<bool>,
    r: RecordAction,
)
    requires
        recorded@ != current@,
        is_record_action(Some(current), true, Some(recorded), ancestor, r),
    ensures
        r matches RecordAction::Record { mark, refreshed } && refreshed && (mark matches Some(m) && m@ == current@),
{
}


/// A base ref found by a scan of the first `n` candidates is the first that
/// resolved, in the order `origin/HEAD`, `origin/main`, `origin/master`, `main`,
/// `master`, then the recorded base `refs/worktree/covgate/base`: it resolved to the
/// commit found, and each ref before it may have answered that it does not resolve.
pub proof fn lemma_base_ref_order<F: Fn(&str) -> Result<Option<String>, CovgateError>>(
    resolve_ref: F,
    n: int,
    name: Seq<char>,
    sha: String,
)
    requires
        n <= 6,
        found_base_ref(resolve_ref, n, name, sha),
    ensures
        ({
            let order = seq![
                "origin/HEAD"@,
                "origin/main"@,
                "origin/master"@,
                "main"@,
                "master"@,
                "refs/worktree/covgate/base"@,
            ];
            exists|i: int|
                #![trigger order[i]]
                0 <= i < n && i < 6 && name == order[i] && (exists|s: &str|
                    s@ == name && #[trigger] call_ensures(resolve_ref, (s,), Ok(Some(sha)))) && forall|j: int|
                    0 <= j < i ==> exists|s: &str|
                        s@ == #[trigger] order[j] && call_ensures(resolve_ref, (s,), Ok(None::<String>))
        }),
{
    let order = seq![
        "origin/HEAD"@,
        "origin/main"@,
        "origin/master"@,
        "main"@,
        "master"@,
        "refs/worktree/covgate/base"@,
    ];
    let i = choose|i: int| name == base_ref_candidates()[i] && #[trigger] scan_found(resolve_ref, n, i, sha);
    assert(base_ref_candidates() =~= order);
    assert(resolved_sha(resolve_ref, i, sha));
    assert(name == order[i]);
    let s0 = choose|s: &str| s@ == base_ref_candidates()[i] && #[trigger] call_ensures(resolve_ref, (s,), Ok(Some(sha)));
    assert(s0@ == name && call_ensures(resolve_ref, (s0,), Ok(Some(sha))));
    assert(forall|j: int| 0 <= j < i ==> #[trigger] resolved_none(resolve_ref, j));
    assert forall|j: int| 0 <= j < i implies exists|s: &str|
        s@ == #[trigger] order[j] && call_ensures(resolve_ref, (s,), Ok(None::<String>)) by {
        assert(resolved_none(resolve_ref, j));
        assert(order[j] == base_ref_candidates()[j]);
    }
}

/// When `origin/HEAD` resolves whenever it is asked, it is the base ref found.
pub proof fn lemma_origin_head_first<F: Fn(&str) -> Result<Option<String>, CovgateError>>(
    resolve_ref: F,
    n: int,
    name: Seq<char>,
    sha: String,
)
    requires
        n <= 6,
        found_base_ref(resolve_ref, n, name, sha),
        forall|s: &str, r: Result<Option<String>, CovgateError>|
            s@ == "origin/HEAD"@ && #[trigger] call_ensures(resolve_ref, (s,), r) ==> r matches Ok(Some(_)),
    ensures
        name == "origin/HEAD"@,
{
    lemma_base_ref_order(resolve_ref, n, name, sha);
    let order = seq![
        "origin/HEAD"@,
        "origin/main"@,
        "origin/master"@,
        "main"@,
        "master"@,
        "refs/worktree/covgate/base"@,
    ];
    let i = choose|i: int|
        #![trigger order[i]]
        0 <= i < n && i < 6 && name == order[i] && (exists|s: &str|
            s@ == name && #[trigger] call_ensures(resolve_ref, (s,), Ok(Some(sha)))) && forall|j: int|
            0 <= j < i ==> exists|s: &str| s@ == #[trigger] order[j] && call_ensures(resolve_ref, (s,), Ok(None::<String>));
    if i > 0 {
        assert(exists|s: &str| s@ == #[trigger] order[0] && call_ensures(resolve_ref, (s,), Ok(None::<String>)));
    }
}

} // verus!
