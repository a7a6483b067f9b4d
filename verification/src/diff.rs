//! Unified-diff parsing: which lines of which files a change adds.
use vstd::prelude::*;

use crate::coverage::path::{lexical_normalize, lexical_normalized};
use crate::error::CovgateError;
use crate::model::{ChangedFile, LineRange};
use crate::sorted::{
    copy_chars, key_views, lemma_key_views_sorted, lemma_lists_insert, lemma_lists_update,
    lemma_path_order_total, path_order,
    lists_map, locate,
};
use crate::text::{
    chars_equal, chars_of, find_char, find_sub, index_of_char, index_of_sub, is_prefix,
    lemma_find_char_from, lines_of, matches_at, next_line, parse_u32,
    parse_u32_spec, push_str, slice_chars, string_from_chars,
};

verus! {

/// Where the changed lines come from: a Git base to diff against, or a diff file.
#[derive(Debug)]
pub enum DiffSource {
    GitBase(String),
    DiffFile(String),
}

pub open spec fn describe_spec(source: DiffSource) -> Seq<char> {
    match source {
        DiffSource::GitBase(base) => base@ + "...HEAD, staged and unstaged changes"@,
        DiffSource::DiffFile(path) => path@,
    }
}

impl DiffSource {
    /// A one-line description of the diff source for reports.
    pub fn describe(&self) -> (s: String)
        ensures
            s@ == describe_spec(*self),
    {
        match self {
            DiffSource::GitBase(base) => {
                let mut s = base.clone();
                push_str(&mut s, "...HEAD, staged and unstaged changes");
                s
            },
            DiffSource::DiffFile(path) => path.clone(),
        }
    }
}

/// The state of a scan over the lines of a unified diff.
pub enum DiffScan {
    /// Still scanning: the current file, whether it is being deleted, and the
    /// changed ranges found so far per file.
    Going { path: Option<Seq<char>>, deleted: bool, files: Map<Seq<char>, Seq<LineRange>> },
    /// Stopped with this error message.
    Failed(Seq<char>),
    /// A hunk whose start plus count exceeds `u32::MAX`.
    Overflow,
}

pub open spec fn git_header() -> Seq<char> {
    "diff --git a/"@
}

pub open spec fn b_marker() -> Seq<char> {
    " b/"@
}

pub open spec fn dev_null_header() -> Seq<char> {
    "+++ /dev/null"@
}

pub open spec fn new_file_header() -> Seq<char> {
    "+++ b/"@
}

pub open spec fn hunk_header() -> Seq<char> {
    "@@ "@
}

pub open spec fn suffix_from(s: Seq<char>, n: int) -> Seq<char> {
    s.subrange(n, s.len() as int)
}

/// The `start,count` text of a hunk header after `@@ `: what follows the first
/// `+`, up to the next space.
pub open spec fn hunk_range_text(rest: Seq<char>, plus: int) -> Seq<char> {
    let after = suffix_from(rest, plus + 1);
    match find_char(after, ' ') {
        Some(e) => after.subrange(0, e),
        None => after,
    }
}

/// The start and count texts of a range: split at the first comma, or a count of one.
pub open spec fn range_parts(range: Seq<char>) -> (Seq<char>, Seq<char>) {
    match find_char(range, ',') {
        Some(c) => (range.subrange(0, c), suffix_from(range, c + 1)),
        None => (range, seq!['1']),
    }
}

/// `files` with `r` appended to the ranges of `path`.
pub open spec fn add_range(
    files: Map<Seq<char>, Seq<LineRange>>,
    path: Seq<char>,
    r: LineRange,
) -> Map<Seq<char>, Seq<LineRange>> {
    let old_ranges = if files.contains_key(path) { files[path] } else { seq![] };
    files.insert(path, old_ranges.push(r))
}

/// `files` with an (empty if new) entry for `path`.
pub open spec fn touch_file(files: Map<Seq<char>, Seq<LineRange>>, path: Seq<char>) -> Map<
    Seq<char>,
    Seq<LineRange>,
> {
    if files.contains_key(path) {
        files
    } else {
        files.insert(path, seq![])
    }
}

/// The effect of a hunk header line on the scan.
pub open spec fn scan_hunk(
    path: Option<Seq<char>>,
    deleted: bool,
    files: Map<Seq<char>, Seq<LineRange>>,
    line: Seq<char>,
) -> DiffScan {
    if deleted {
        DiffScan::Going { path, deleted, files }
    } else {
        match path {
            None => DiffScan::Failed("encountered hunk before file header"@),
            Some(p) => {
                let rest = suffix_from(line, hunk_header().len() as int);
                match find_char(rest, '+') {
                    None => DiffScan::Failed("missing added hunk marker"@),
                    Some(k) => {
                        let parts = range_parts(hunk_range_text(rest, k));
                        match parse_u32_spec(parts.0) {
                            None => DiffScan::Failed("invalid hunk start line"@),
                            Some(start) => match parse_u32_spec(parts.1) {
                                None => DiffScan::Failed("invalid hunk count"@),
                                Some(count) => if count == 0 {
                                    DiffScan::Going { path, deleted, files }
                                } else if start as int + count as int > u32::MAX {
                                    DiffScan::Overflow
                                } else {
                                    DiffScan::Going {
                                        path,
                                        deleted,
                                        files: add_range(
                                            files,
                                            p,
                                            LineRange {
                                                start,
                                                end: (start + count - 1) as u32,
                                            },
                                        ),
                                    }
                                },
                            },
                        }
                    },
                }
            },
        }
    }
}

/// The effect of one diff line on the scan.
pub open spec fn scan_line(st: DiffScan, line: Seq<char>) -> DiffScan {
    match st {
        DiffScan::Going { path, deleted, files } => if is_prefix(git_header(), line) {
            let rest = suffix_from(line, git_header().len() as int);
            match find_sub(rest, b_marker()) {
                Some(i) => DiffScan::Going {
                    path: Some(lexical_normalized(suffix_from(rest, i + b_marker().len()))),
                    deleted: false,
                    files,
                },
                None => DiffScan::Failed("malformed diff --git header"@),
            }
        } else if line == dev_null_header() {
            DiffScan::Going { path, deleted: true, files }
        } else if is_prefix(new_file_header(), line) {
            let p = lexical_normalized(suffix_from(line, new_file_header().len() as int));
            DiffScan::Going { path: Some(p), deleted: false, files: touch_file(files, p) }
        } else if is_prefix(hunk_header(), line) {
            scan_hunk(path, deleted, files, line)
        } else {
            st
        },
        _ => st,
    }
}

/// The scan after the given lines.
pub open spec fn scan_lines(lines: Seq<Seq<char>>) -> DiffScan
    decreases lines.len(),
{
    if lines.len() == 0 {
        DiffScan::Going { path: None, deleted: false, files: Map::empty() }
    } else {
        scan_line(scan_lines(lines.drop_last()), lines.last())
    }
}

/// The scan of a whole diff text.
pub open spec fn diff_scan(input: Seq<char>) -> DiffScan {
    scan_lines(lines_of(input))
}

/// Once a scan has failed or overflowed, later lines do not change it.
pub proof fn lemma_scan_stuck(prefix: Seq<Seq<char>>, rest: Seq<Seq<char>>)
    requires
        !(scan_lines(prefix) is Going),
    ensures
        scan_lines(prefix + rest) == scan_lines(prefix),
    decreases rest.len(),
{
    if rest.len() > 0 {
        lemma_scan_stuck(prefix, rest.drop_last());
        assert((prefix + rest).drop_last() =~= prefix + rest.drop_last());
    } else {
        assert(prefix + rest =~= prefix);
    }
}

/// The changed files of a scan: one per path, in path order, with its ranges.
pub open spec fn lists_changed_files(files: Seq<ChangedFile>, m: Map<Seq<char>, Seq<LineRange>>) -> bool {
    lists_map(
        files.map_values(|f: ChangedFile| f.path@),
        files.map_values(|f: ChangedFile| f.changed_lines@),
        m,
    )
}

/// The views of a vector of range vectors.
pub open spec fn range_views(vals: Seq<Vec<LineRange>>) -> Seq<Seq<LineRange>> {
    vals.map_values(|v: Vec<LineRange>| v@)
}

pub open spec fn opt_chars(o: Option<Vec<char>>) -> Option<Seq<char>> {
    match o {
        Some(p) => Some(p@),
        None => None,
    }
}

/// Inserts or updates the entry for `k`: appends `add` to its ranges when given,
/// else only makes sure the entry exists.
fn upsert(
    keys: &mut Vec<Vec<char>>,
    vals: &mut Vec<Vec<LineRange>>,
    k: &[char],
    add: Option<LineRange>,
    Ghost(m): Ghost<Map<Seq<char>, Seq<LineRange>>>,
)
    requires
        lists_map(key_views(old(keys)@), range_views(old(vals)@), m),
    ensures
        lists_map(
            key_views(final(keys)@),
            range_views(final(vals)@),
            match add {
                Some(r) => add_range(m, k@, r),
                None => touch_file(m, k@),
            },
        ),
{
    let ghost ks = key_views(keys@);
    let ghost vs = range_views(vals@);
    proof {
        lemma_key_views_sorted(keys@);
    }
    let (p, found) = locate(keys, k);
    if found {
        assert(ks[p as int] == k@);
        match add {
            Some(r) => {
                let mut inner = vals.remove(p);
                inner.push(r);
                vals.insert(p, inner);
                proof {
                    assert(key_views(keys@) =~= ks);
                    assert(range_views(vals@) =~= vs.update(p as int, inner@));
                    lemma_path_order_total();
                    lemma_lists_update(ks, vs, m, path_order(), p as int, inner@);
                }
            },
            None => {},
        }
    } else {
        let new_key = copy_chars(k);
        let mut inner: Vec<LineRange> = Vec::new();
        match add {
            Some(r) => {
                inner.push(r);
            },
            None => {},
        }
        proof {
            lemma_path_order_total();
            lemma_lists_insert(ks, vs, m, path_order(), p as int, k@, inner@);
        }
        keys.insert(p, new_key);
        vals.insert(p, inner);
        proof {
            assert(key_views(keys@) =~= ks.insert(p as int, k@));
            assert(range_views(vals@) =~= vs.insert(p as int, inner@));
            match add {
                Some(r) => {
                    assert(add_range(m, k@, r) =~= m.insert(k@, inner@));
                },
                None => {
                    assert(touch_file(m, k@) =~= m.insert(k@, inner@));
                },
            }
        }
    }
}

/// Reads the start line and count of a hunk range (`start[,count]`).
fn parse_range(range: &[char]) -> (r: Result<(u32, u32), CovgateError>)
    ensures
        match (parse_u32_spec(range_parts(range@).0), parse_u32_spec(range_parts(range@).1)) {
            (Some(s), Some(c)) => r == Ok::<(u32, u32), CovgateError>((s, c)),
            (None, _) => r is Err && r->Err_0.message@ == "invalid hunk start line"@,
            (Some(_), None) => r is Err && r->Err_0.message@ == "invalid hunk count"@,
        },
{
    proof {
        lemma_find_char_from(range@, ',', 0);
    }
    assert(range@.len() == range.len());
    let parts = match index_of_char(range, ',', 0) {
        Some(c) => (slice_chars(range, 0, c), slice_chars(range, c + 1, range.len())),
        None => (slice_chars(range, 0, range.len()), vec!['1']),
    };
    proof {
        assert(parts.0@ =~= range_parts(range@).0);
        assert(parts.1@ =~= range_parts(range@).1);
    }
    let start = match parse_u32(parts.0.as_slice()) {
        Some(s) => s,
        None => {
            return Err(CovgateError::new("invalid hunk start line"));
        },
    };
    let count = match parse_u32(parts.1.as_slice()) {
        Some(c) => c,
        None => {
            return Err(CovgateError::new("invalid hunk count"));
        },
    };
    Ok((start, count))
}

/// Parses a unified diff, or gives `None` where a hunk's start plus count
/// exceeds `u32::MAX`.
/// The path named by `p`, normalized as collecting its components gives it, so
/// that paths equal as paths (`a/./b`, `a//b`, `a/b/` and `a/b`) are one key.
fn normalized_chars(p: &[char]) -> (r: Vec<char>)
    ensures
        r@ == lexical_normalized(p@),
{
    let s = string_from_chars(p);
    let n = lexical_normalize(s.as_str());
    chars_of(n.as_str())
}

pub fn try_parse_unified_diff(input: &str) -> (r: Option<Result<Vec<ChangedFile>, CovgateError>>)
    ensures
        match diff_scan(input@) {
            DiffScan::Going { files, .. } => r matches Some(Ok(changed)) && lists_changed_files(
                changed@,
                files,
            ),
            DiffScan::Failed(msg) => r matches Some(Err(e)) && e.message@ == msg,
            DiffScan::Overflow => r is None,
        },
{
    let v = chars_of(input);
    let git = chars_of("diff --git a/");
    let bm = chars_of(" b/");
    let null = chars_of("+++ /dev/null");
    let plus_b = chars_of("+++ b/");
    let at = chars_of("@@ ");
    let mut path: Option<Vec<char>> = None;
    let mut deleted = false;
    let mut keys: Vec<Vec<char>> = Vec::new();
    let mut vals: Vec<Vec<LineRange>> = Vec::new();
    let mut pos: usize = 0;
    let ghost mut processed: Seq<Seq<char>> = seq![];
    let ghost mut files: Map<Seq<char>, Seq<LineRange>> = Map::empty();
    assert(v@.subrange(0, v@.len() as int) =~= v@);
    assert(processed + lines_of(v@) =~= lines_of(v@));
    while pos < v.len()
        invariant
            pos <= v@.len(),
            v@ == input@,
            git@ == git_header(),
            bm@ == b_marker(),
            null@ == dev_null_header(),
            plus_b@ == new_file_header(),
            at@ == hunk_header(),
            lines_of(v@) == processed + lines_of(v@.subrange(pos as int, v@.len() as int)),
            scan_lines(processed) == (DiffScan::Going {
                path: opt_chars(path),
                deleted,
                files,
            }),
            lists_map(key_views(keys@), range_views(vals@), files),
        decreases v@.len() - pos,
    {
        let (line, next) = next_line(v.as_slice(), pos);
        let ghost before = scan_lines(processed);
        proof {
            let p2 = processed.push(line@);
            assert(p2.drop_last() =~= processed);
            assert(lines_of(v@) =~= p2 + lines_of(v@.subrange(next as int, v@.len() as int)));
            processed = p2;
            assert(scan_lines(processed) == scan_line(before, line@));
        }
        assert(line@.subrange(0, line@.len() as int) =~= line@);
        if matches_at(line.as_slice(), 0, git.as_slice()) {
            assert(line@.subrange(0, line@.len() as int) =~= line@);
            let rest = slice_chars(line.as_slice(), git.len(), line.len());
            match index_of_sub(rest.as_slice(), bm.as_slice()) {
                Some(i) => {
                    let p = normalized_chars(slice_chars(rest.as_slice(), i + bm.len(), rest.len()).as_slice());
                    path = Some(p);
                    deleted = false;
                },
                None => {
                    proof {
                            lemma_scan_stuck(processed, lines_of(v@.subrange(next as int, v@.len() as int)));
                        }
                        return Some(Err(CovgateError::new("malformed diff --git header")));
                },
            }
        } else if chars_equal(line.as_slice(), null.as_slice()) {
            assert(line@.subrange(0, line@.len() as int) =~= line@);
            deleted = true;
        } else if matches_at(line.as_slice(), 0, plus_b.as_slice()) {
            assert(line@.subrange(0, line@.len() as int) =~= line@);
            let p = normalized_chars(slice_chars(line.as_slice(), plus_b.len(), line.len()).as_slice());
            upsert(&mut keys, &mut vals, p.as_slice(), None, Ghost(files));
            proof {
                files = touch_file(files, p@);
            }
            path = Some(p);
            deleted = false;
        } else if matches_at(line.as_slice(), 0, at.as_slice()) {
            assert(line@.subrange(0, line@.len() as int) =~= line@);
            if !deleted {
                let cur = match &path {
                    Some(p) => p,
                    None => {
                        proof {
                            lemma_scan_stuck(processed, lines_of(v@.subrange(next as int, v@.len() as int)));
                        }
                        return Some(Err(CovgateError::new("encountered hunk before file header")));
                    },
                };
                let rest = slice_chars(line.as_slice(), at.len(), line.len());
                let k = match index_of_char(rest.as_slice(), '+', 0) {
                    Some(k) => k,
                    None => {
                        proof {
                            lemma_scan_stuck(processed, lines_of(v@.subrange(next as int, v@.len() as int)));
                        }
                        return Some(Err(CovgateError::new("missing added hunk marker")));
                    },
                };
                proof {
                    lemma_find_char_from(rest@, '+', 0);
                }
                let after = slice_chars(rest.as_slice(), k + 1, rest.len());
                let range = match index_of_char(after.as_slice(), ' ', 0) {
                    Some(e) => {
                        proof {
                            lemma_find_char_from(after@, ' ', 0);
                        }
                        slice_chars(after.as_slice(), 0, e)
                    },
                    None => after,
                };
                assert(range@ == hunk_range_text(rest@, k as int));
                let (start, count) = match parse_range(range.as_slice()) {
                    Ok(sc) => sc,
                    Err(e) => {
                        proof {
                            lemma_scan_stuck(processed, lines_of(v@.subrange(next as int, v@.len() as int)));
                        }
                        return Some(Err(e));
                    },
                };
                if count != 0 {
                    if count > u32::MAX - start {
                        proof {
                            lemma_scan_stuck(processed, lines_of(v@.subrange(next as int, v@.len() as int)));
                        }
                        return None;
                    }
                    let r = LineRange { start, end: start + count - 1 };
                    upsert(&mut keys, &mut vals, cur.as_slice(), Some(r), Ghost(files));
                    proof {
                        files = add_range(files, cur@, r);
                    }
                }
            }
        }
        pos = next;
    }
    let mut out: Vec<ChangedFile> = Vec::new();
    let ghost ks = key_views(keys@);
    let ghost vs = range_views(vals@);
    let mut idx: usize = 0;
    let n = keys.len();
    while idx < n
        invariant
            n == ks.len(),
            n == keys@.len(),
            n == vals@.len(),
            idx <= n,
            out@.len() == idx,
            lists_map(ks, vs, files),
            forall|i: int| 0 <= i < n ==> #[trigger] ks[i] == keys@[i]@ && vs[i] == vals@[i]@,
            forall|i: int|
                #![trigger out@[i]]
                0 <= i < idx ==> out@[i].path@ == ks[i] && out@[i].changed_lines@ == vs[i],
        decreases n - idx,
    {
        assert(ks[idx as int] == keys@[idx as int]@ && vs[idx as int] == vals@[idx as int]@);
        let path_string = string_from_chars(keys[idx].as_slice());
        let mut ranges: Vec<LineRange> = Vec::new();
        let src = &vals[idx];
        let mut j: usize = 0;
        while j < src.len()
            invariant
                j <= src@.len(),
                ranges@ == src@.subrange(0, j as int),
            decreases src@.len() - j,
        {
            ranges.push(src[j]);
            j = j + 1;
            assert(ranges@ =~= src@.subrange(0, j as int));
        }
        assert(ranges@ =~= src@);
        out.push(ChangedFile { path: path_string, changed_lines: ranges });
        idx = idx + 1;
    }
    proof {
        let ps = out@.map_values(|f: ChangedFile| f.path@);
        let rs = out@.map_values(|f: ChangedFile| f.changed_lines@);
        assert(ps =~= ks);
        assert(rs =~= vs);
        assert(v@.subrange(pos as int, v@.len() as int) =~= seq![]);
        assert(lines_of(v@.subrange(pos as int, v@.len() as int)) =~= seq![]);
        assert(lines_of(v@) =~= processed);
    }
    Some(Ok(out))
}

/// Parses a unified diff into the changed line ranges per file.
///
/// Only added lines count: hunks of deleted files and hunks that add no lines
/// are skipped. Paths are taken in lexically normal form, so spellings that name
/// the same path (with `.` parts, repeated or trailing `/`) give one file. Files
/// appear in path order, each with its ranges in diff order.
pub fn parse_unified_diff(input: &str) -> (r: Result<Vec<ChangedFile>, CovgateError>)
    requires
        !(diff_scan(input@) is Overflow),
    ensures
        match diff_scan(input@) {
            DiffScan::Going { files, .. } => r matches Ok(changed) && lists_changed_files(
                changed@,
                files,
            ),
            DiffScan::Failed(msg) => r matches Err(e) && e.message@ == msg,
            DiffScan::Overflow => false,
        },
{
    match try_parse_unified_diff(input) {
        Some(r) => r,
        None => Ok(Vec::new()),
    }
}

} // verus!
