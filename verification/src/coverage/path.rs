//! Lexical path normalization: the components of a `/`-separated path, and paths
//! made relative to the repository root.
use vstd::prelude::*;

use crate::config::joined;
use crate::render::{split_by, split_on};
use crate::text::{chars_of, push_chars, string_from_chars};

verus! {

/// The segments that name something: neither empty nor `.`.
pub open spec fn normal_parts(segs: Seq<Seq<char>>) -> Seq<Seq<char>>
    decreases segs.len(),
{
    if segs.len() == 0 {
        seq![]
    } else {
        let prev = normal_parts(segs.drop_last());
        let s = segs.last();
        if s.len() > 0 && s != seq!['.'] {
            prev.push(s)
        } else {
            prev
        }
    }
}

/// The path starts at the root.
pub open spec fn is_absolute(s: Seq<char>) -> bool {
    s.len() > 0 && s[0] == '/'
}

/// The components of a path, as `Path::components` yields them: `/` for the root,
/// `.` for a leading current directory, then each part that names something.
pub open spec fn path_components(s: Seq<char>) -> Seq<Seq<char>> {
    let segs = split_on(s, '/');
    let root = is_absolute(s);
    let cur = !root && segs[0] == seq!['.'];
    (if root {
        seq![seq!['/']]
    } else {
        seq![]
    }) + (if cur {
        seq![seq!['.']]
    } else {
        seq![]
    }) + normal_parts(segs)
}

/// The path that a list of components makes.
pub open spec fn render_components(c: Seq<Seq<char>>) -> Seq<char> {
    if c.len() > 0 && c[0] == seq!['/'] {
        seq!['/'] + joined(c.drop_first(), seq!['/'])
    } else {
        joined(c, seq!['/'])
    }
}

/// `s` with repeated separators, trailing separators and inner `.` parts removed.
pub open spec fn lexical_normalized(s: Seq<char>) -> Seq<char> {
    render_components(path_components(s))
}

/// `path` normalized, and, when it is absolute and lies under `root`, made
/// relative to `root`.
pub open spec fn relativized(path: Seq<char>, root: Seq<char>) -> Seq<char> {
    let pc = path_components(path);
    let rc = path_components(root);
    if is_absolute(path) && rc.len() <= pc.len() && pc.subrange(0, rc.len() as int) == rc {
        render_components(pc.subrange(rc.len() as int, pc.len() as int))
    } else {
        render_components(pc)
    }
}

proof fn lemma_split_nonempty(s: Seq<char>, sep: char)
    ensures
        split_on(s, sep).len() > 0,
    decreases s.len(),
{
    if s.len() > 0 {
        lemma_split_nonempty(s.drop_last(), sep);
    }
}

/// The components of a path.
fn components_of(v: &Vec<char>) -> (r: Vec<Vec<char>>)
    ensures
        r@.map_values(|w: Vec<char>| w@) == path_components(v@),
{
    let segs = split_by(v, '/');
    let ghost sv = segs@.map_values(|w: Vec<char>| w@);
    proof {
        lemma_split_nonempty(v@, '/');
    }
    let root = v.len() > 0 && v[0] == '/';
    let mut r: Vec<Vec<char>> = Vec::new();
    if root {
        let mut slash: Vec<char> = Vec::new();
        slash.push('/');
        assert(slash@ =~= seq!['/']);
        r.push(slash);
        assert(r@.map_values(|w: Vec<char>| w@) =~= seq![seq!['/']]);
    } else {
        let first = &segs[0];
        assert(first@ == sv[0]);
        if first.len() == 1 && first[0] == '.' {
            assert(first@ =~= seq!['.']);
            let mut dot: Vec<char> = Vec::new();
            dot.push('.');
            assert(dot@ =~= seq!['.']);
            r.push(dot);
            assert(r@.map_values(|w: Vec<char>| w@) =~= seq![seq!['.']]);
        } else {
            assert(first@ != seq!['.']) by {
                if first@ == seq!['.'] {
                    assert(first@.len() == 1);
                }
            }
            assert(r@.map_values(|w: Vec<char>| w@) =~= Seq::<Seq<char>>::empty());
        }
    }
    let ghost head = r@.map_values(|w: Vec<char>| w@);
    assert(head =~= (if root {
        seq![seq!['/']]
    } else {
        seq![]
    }) + (if !root && sv[0] == seq!['.'] {
        seq![seq!['.']]
    } else {
        seq![]
    }));
    let mut i: usize = 0;
    assert(sv.subrange(0, 0) =~= Seq::<Seq<char>>::empty());
    assert(head + normal_parts(sv.subrange(0, 0)) =~= head);
    while i < segs.len()
        invariant
            i <= segs@.len(),
            sv == segs@.map_values(|w: Vec<char>| w@),
            r@.map_values(|w: Vec<char>| w@) == head + normal_parts(sv.subrange(0, i as int)),
        decreases segs@.len() - i,
    {
        assert(sv.subrange(0, i + 1).drop_last() =~= sv.subrange(0, i as int));
        assert(sv.subrange(0, i + 1).last() == segs@[i as int]@);
        let s = &segs[i];
        let keep = s.len() > 0 && !(s.len() == 1 && s[0] == '.');
        assert(keep == (s@.len() > 0 && s@ != seq!['.'])) by {
            if s@.len() == 1 && s@ != seq!['.'] {
                assert(s@[0] != '.') by {
                    if s@[0] == '.' {
                        assert(s@ =~= seq!['.']);
                    }
                }
            }
        }
        let ghost before = r@.map_values(|w: Vec<char>| w@);
        if keep {
            r.push(s.clone());
            assert(r@.map_values(|w: Vec<char>| w@) =~= before.push(s@));
        }
        i = i + 1;
    }
    assert(sv.subrange(0, sv.len() as int) =~= sv);
    r
}

/// The path that the components `c[from..]` make.
fn render_from(c: &Vec<Vec<char>>, from: usize) -> (r: String)
    requires
        from <= c@.len(),
    ensures
        r@ == render_components(c@.map_values(|w: Vec<char>| w@).subrange(from as int, c@.len() as int)),
{
    let ghost cv = c@.map_values(|w: Vec<char>| w@);
    let ghost rest = cv.subrange(from as int, c@.len() as int);
    let mut r = String::new();
    let mut i = from;
    let rooted = from < c.len() && c[from].len() == 1 && c[from][0] == '/';
    assert(rooted == (rest.len() > 0 && rest[0] == seq!['/'])) by {
        if rest.len() > 0 {
            assert(rest[0] == c@[from as int]@);
            if c@[from as int]@ == seq!['/'] {
                assert(c@[from as int]@.len() == 1);
            }
            if c@[from as int]@.len() == 1 && c@[from as int]@[0] == '/' {
                assert(c@[from as int]@ =~= seq!['/']);
            }
        }
    }
    let ghost parts = if rooted {
        rest.drop_first()
    } else {
        rest
    };
    if rooted {
        r.push('/');
        i = i + 1;
    }
    let start = i;
    assert(parts =~= cv.subrange(start as int, c@.len() as int));
    assert(cv.subrange(start as int, start as int) =~= Seq::<Seq<char>>::empty());
    let ghost prefix = r@;
    while i < c.len()
        invariant
            start <= i <= c@.len(),
            cv == c@.map_values(|w: Vec<char>| w@),
            r@ == prefix + joined(cv.subrange(start as int, i as int), seq!['/']),
        decreases c@.len() - i,
    {
        assert(cv.subrange(start as int, i + 1).drop_last() =~= cv.subrange(start as int, i as int));
        assert(cv.subrange(start as int, i + 1).last() == c@[i as int]@);
        if i > start {
            r.push('/');
        } else {
            assert(cv.subrange(start as int, i + 1) =~= seq![c@[i as int]@]);
        }
        push_chars(&mut r, c[i].as_slice());
        assert(r@ =~= prefix + joined(cv.subrange(start as int, i + 1), seq!['/']));
        i = i + 1;
    }
    assert(r@ =~= render_components(rest));
    r
}

/// The path normalized lexically, as collecting its components gives it.
pub fn lexical_normalize(path: &str) -> (r: String)
    ensures
        r@ == lexical_normalized(path@),
{
    let v = chars_of(path);
    let c = components_of(&v);
    let r = render_from(&c, 0);
    assert(c@.map_values(|w: Vec<char>| w@).subrange(0, c@.len() as int) =~= c@.map_values(|w: Vec<char>| w@));
    r
}

/// Whether the component lists agree on their first `n` entries.
fn same_prefix(a: &Vec<Vec<char>>, b: &Vec<Vec<char>>, n: usize) -> (r: bool)
    requires
        n <= a@.len(),
        n <= b@.len(),
    ensures
        r == (a@.map_values(|w: Vec<char>| w@).subrange(0, n as int) == b@.map_values(|w: Vec<char>| w@).subrange(
            0,
            n as int,
        )),
{
    let ghost av = a@.map_values(|w: Vec<char>| w@);
    let ghost bv = b@.map_values(|w: Vec<char>| w@);
    let mut i: usize = 0;
    while i < n
        invariant
            i <= n,
            n <= a@.len(),
            n <= b@.len(),
            av == a@.map_values(|w: Vec<char>| w@),
            bv == b@.map_values(|w: Vec<char>| w@),
            forall|j: int| 0 <= j < i ==> av[j] == bv[j],
        decreases n - i,
    {
        if !crate::text::chars_equal(a[i].as_slice(), b[i].as_slice()) {
            assert(av.subrange(0, n as int)[i as int] != bv.subrange(0, n as int)[i as int]);
            return false;
        }
        i = i + 1;
    }
    assert(av.subrange(0, n as int) =~= bv.subrange(0, n as int));
    true
}

/// `path` normalized, and made relative to `repo_root` when it is absolute and
/// lies under it.
pub fn relativize_absolute_path(path: &str, repo_root: &str) -> (r: String)
    ensures
        r@ == relativized(path@, repo_root@),
{
    let pv = chars_of(path);
    let rv = chars_of(repo_root);
    let pc = components_of(&pv);
    let rc = components_of(&rv);
    let absolute = pv.len() > 0 && pv[0] == '/';
    if absolute && rc.len() <= pc.len() && same_prefix(&pc, &rc, rc.len()) {
        assert(rc@.map_values(|w: Vec<char>| w@).subrange(0, rc@.len() as int) =~= rc@.map_values(|w: Vec<char>| w@));
        render_from(&pc, rc.len())
    } else {
        proof {
            if absolute && rc@.len() <= pc@.len() {
                assert(rc@.map_values(|w: Vec<char>| w@).subrange(0, rc@.len() as int) =~= rc@.map_values(
                    |w: Vec<char>| w@,
                ));
            }
        }
        let r = render_from(&pc, 0);
        assert(pc@.map_values(|w: Vec<char>| w@).subrange(0, pc@.len() as int) =~= pc@.map_values(|w: Vec<char>| w@));
        r
    }
}

} // verus!
