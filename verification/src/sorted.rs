//! Path-keyed tables kept in path order, with lemmas relating them to maps.
use vstd::prelude::*;

use crate::text::{chars_equal, lemma_path_order, path_less, path_lt};

verus! {

/// `lt` is a strict total order.
pub open spec fn strict_total<K>(lt: spec_fn(K, K) -> bool) -> bool {
    &&& forall|a: K| #![trigger lt(a, a)] !lt(a, a)
    &&& forall|a: K, b: K, c: K| #![trigger lt(a, b), lt(b, c)] lt(a, b) && lt(b, c) ==> lt(a, c)
    &&& forall|a: K, b: K| #![trigger lt(a, b)] a != b ==> lt(a, b) || lt(b, a)
}

/// `keys` are in strictly increasing `lt` order, and together with `vals` they
/// list exactly the entries of `m`.
pub open spec fn lists_by<K, V>(keys: Seq<K>, vals: Seq<V>, m: Map<K, V>, lt: spec_fn(K, K) -> bool) -> bool {
    &&& keys.len() == vals.len()
    &&& forall|i: int, j: int|
        0 <= i < j < keys.len() ==> lt(#[trigger] keys[i], #[trigger] keys[j])
    &&& forall|i: int|
        0 <= i < keys.len() ==> m.contains_key(#[trigger] keys[i]) && m[keys[i]] == vals[i]
    &&& forall|k: K|
        m.contains_key(k) ==> exists|i: int| 0 <= i < keys.len() && #[trigger] keys[i] == k
}

/// The path order as a relation.
pub open spec fn path_order() -> spec_fn(Seq<char>, Seq<char>) -> bool {
    |a: Seq<char>, b: Seq<char>| path_lt(a, b)
}

/// `keys` are in strictly increasing path order, and together with `vals` they
/// list exactly the entries of `m`.
pub open spec fn lists_map<V>(keys: Seq<Seq<char>>, vals: Seq<V>, m: Map<Seq<char>, V>) -> bool {
    lists_by(keys, vals, m, path_order())
}

pub proof fn lemma_path_order_total()
    ensures
        strict_total(path_order()),
{
    assert forall|a: Seq<char>| #![trigger path_order()(a, a)] !path_order()(a, a) by {
        lemma_path_order(a, a, a);
    }
    assert forall|a: Seq<char>, b: Seq<char>, c: Seq<char>|
        #![trigger path_order()(a, b), path_order()(b, c)]
        path_order()(a, b) && path_order()(b, c) implies path_order()(a, c) by {
        lemma_path_order(a, b, c);
    }
    assert forall|a: Seq<char>, b: Seq<char>| #![trigger path_order()(a, b)] a != b implies path_order()(a, b)
        || path_order()(b, a) by {
        lemma_path_order(a, b, b);
    }
}

/// The views of a vector of character vectors.
pub open spec fn key_views(keys: Seq<Vec<char>>) -> Seq<Seq<char>> {
    keys.map_values(|k: Vec<char>| k@)
}

/// Inserting a new key at its sorted position lists the map with that key added.
pub proof fn lemma_lists_insert<K, V>(
    ks: Seq<K>,
    vs: Seq<V>,
    m: Map<K, V>,
    lt: spec_fn(K, K) -> bool,
    p: int,
    k: K,
    v: V,
)
    requires
        strict_total(lt),
        lists_by(ks, vs, m, lt),
        0 <= p <= ks.len(),
        forall|i: int| 0 <= i < p ==> lt(#[trigger] ks[i], k),
        p == ks.len() || lt(k, ks[p]),
    ensures
        !m.contains_key(k),
        lists_by(ks.insert(p, k), vs.insert(p, v), m.insert(k, v), lt),
{
    assert(!m.contains_key(k)) by {
        if m.contains_key(k) {
            let i = choose|i: int| 0 <= i < ks.len() && #[trigger] ks[i] == k;
            if i < p {
                assert(lt(ks[i], k));
            } else if i == p {
                assert(lt(k, k));
            } else {
                assert(lt(ks[p], ks[i]));
                assert(lt(k, ks[p]));
            }
        }
    }
    let ks2 = ks.insert(p, k);
    let vs2 = vs.insert(p, v);
    let m2 = m.insert(k, v);
    assert forall|a: int, b: int| 0 <= a < b < ks2.len() implies lt(
        #[trigger] ks2[a],
        #[trigger] ks2[b],
    ) by {
        if a < p && b == p {
            assert(lt(ks[a], k));
        } else if a < p && b > p {
            assert(lt(ks[a], k));
            if b - 1 == p {
                assert(lt(k, ks[b - 1]));
            } else {
                assert(lt(ks[p], ks[b - 1]));
                assert(lt(k, ks[p]));
                assert(lt(k, ks[b - 1]));
            }
        } else if a == p {
            if b - 1 > p {
                assert(lt(ks[p], ks[b - 1]));
                assert(lt(k, ks[p]));
            }
        } else if a > p {
            assert(ks2[a] == ks[a - 1]);
            assert(ks2[b] == ks[b - 1]);
        } else {
            assert(ks2[a] == ks[a]);
            assert(ks2[b] == ks[b]);
        }
    }
    assert forall|i: int| 0 <= i < ks2.len() implies m2.contains_key(#[trigger] ks2[i])
        && m2[ks2[i]] == vs2[i] by {
        if i < p {
            assert(ks2[i] == ks[i]);
            assert(lt(ks[i], k));
            if ks[i] == k {
                assert(lt(k, k));
            }
        } else if i > p {
            assert(ks2[i] == ks[i - 1]);
            if i - 1 == p {
                assert(lt(k, ks[p]));
                if ks[p] == k {
                    assert(lt(k, k));
                }
            } else {
                assert(lt(ks[p], ks[i - 1]));
                assert(lt(k, ks[p]));
                assert(lt(k, ks[i - 1]));
                if ks[i - 1] == k {
                    assert(lt(k, k));
                }
            }
        }
    }
    assert forall|kk: K| m2.contains_key(kk) implies exists|i: int|
        0 <= i < ks2.len() && #[trigger] ks2[i] == kk by {
        if kk == k {
            assert(ks2[p] == kk);
        } else {
            let i = choose|i: int| 0 <= i < ks.len() && #[trigger] ks[i] == kk;
            if i < p {
                assert(ks2[i] == kk);
            } else {
                assert(ks2[i + 1] == kk);
            }
        }
    }
}

/// Replacing the value at position `p` lists the map with that key's value replaced.
pub proof fn lemma_lists_update<K, V>(ks: Seq<K>, vs: Seq<V>, m: Map<K, V>, lt: spec_fn(K, K) -> bool, p: int, v: V)
    requires
        strict_total(lt),
        lists_by(ks, vs, m, lt),
        0 <= p < ks.len(),
    ensures
        lists_by(ks, vs.update(p, v), m.insert(ks[p], v), lt),
{
    let vs2 = vs.update(p, v);
    let m2 = m.insert(ks[p], v);
    assert forall|i: int| 0 <= i < ks.len() implies m2.contains_key(#[trigger] ks[i]) && m2[ks[i]]
        == vs2[i] by {
        if i != p {
            if i < p {
                assert(lt(ks[i], ks[p]));
            } else {
                assert(lt(ks[p], ks[i]));
            }
            if ks[i] == ks[p] {
                assert(lt(ks[p], ks[p]));
            }
        }
    }
    assert forall|kk: K| m2.contains_key(kk) implies exists|i: int|
        0 <= i < ks.len() && #[trigger] ks[i] == kk by {
        if kk == ks[p] {
        } else {
            assert(m.contains_key(kk));
        }
    }
}

/// The position of `k` in the sorted `keys`, or where it belongs.
pub fn locate(keys: &Vec<Vec<char>>, k: &[char]) -> (r: (usize, bool))
    requires
        forall|i: int, j: int|
            0 <= i < j < keys@.len() ==> path_lt(#[trigger] keys@[i]@, #[trigger] keys@[j]@),
    ensures
        r.0 <= keys@.len(),
        forall|i: int| 0 <= i < r.0 ==> path_lt(#[trigger] keys@[i]@, k@),
        r.1 ==> r.0 < keys@.len() && keys@[r.0 as int]@ == k@,
        !r.1 ==> r.0 == keys@.len() || path_lt(k@, keys@[r.0 as int]@),
{
    let mut p: usize = 0;
    while p < keys.len() && path_less(keys[p].as_slice(), k)
        invariant
            p <= keys@.len(),
            forall|i: int| 0 <= i < p ==> path_lt(#[trigger] keys@[i]@, k@),
        decreases keys@.len() - p,
    {
        p = p + 1;
    }
    if p < keys.len() && chars_equal(keys[p].as_slice(), k) {
        (p, true)
    } else {
        if p < keys.len() {
            proof {
                lemma_path_order(keys@[p as int]@, k@, k@);
            }
        }
        (p, false)
    }
}

/// Sortedness of key vectors carries over to their views.
pub proof fn lemma_key_views_sorted(keys: Seq<Vec<char>>)
    requires
        forall|i: int, j: int|
            0 <= i < j < key_views(keys).len() ==> path_lt(
                #[trigger] key_views(keys)[i],
                #[trigger] key_views(keys)[j],
            ),
    ensures
        forall|i: int, j: int|
            0 <= i < j < keys.len() ==> path_lt(#[trigger] keys[i]@, #[trigger] keys[j]@),
{
    assert forall|i: int, j: int| 0 <= i < j < keys.len() implies path_lt(
        #[trigger] keys[i]@,
        #[trigger] keys[j]@,
    ) by {
        assert(key_views(keys)[i] == keys[i]@);
        assert(key_views(keys)[j] == keys[j]@);
    }
}

/// A fresh vector holding the characters `k`.
pub fn copy_chars(k: &[char]) -> (r: Vec<char>)
    ensures
        r@ == k@,
{
    let mut r: Vec<char> = Vec::new();
    let mut j: usize = 0;
    while j < k.len()
        invariant
            j <= k@.len(),
            r@ == k@.subrange(0, j as int),
        decreases k@.len() - j,
    {
        r.push(k[j]);
        j = j + 1;
        assert(r@ =~= k@.subrange(0, j as int));
    }
    assert(r@ =~= k@);
    r
}

/// The listing of `m` in `lt` order, when there is one.
pub open spec fn listing<K, V>(m: Map<K, V>, lt: spec_fn(K, K) -> bool) -> (Seq<K>, Seq<V>) {
    choose|p: (Seq<K>, Seq<V>)| lists_by(p.0, p.1, m, lt)
}

/// A map has at most one listing in a strict total order.
pub proof fn lemma_listing_unique<K, V>(k1: Seq<K>, v1: Seq<V>, k2: Seq<K>, v2: Seq<V>, m: Map<K, V>, lt: spec_fn(K, K) -> bool)
    requires
        strict_total(lt),
        lists_by(k1, v1, m, lt),
        lists_by(k2, v2, m, lt),
    ensures
        k1 == k2,
        v1 == v2,
    decreases k1.len() + k2.len(),
{
    if k1.len() == 0 {
        if k2.len() > 0 {
            assert(m.contains_key(k2[0]));
        }
        assert(k1 =~= k2);
        assert(v1 =~= v2);
    } else if k2.len() == 0 {
        assert(m.contains_key(k1[0]));
    } else {
        let a = k1.last();
        let b = k2.last();
        assert(m.contains_key(a));
        assert(m.contains_key(b));
        let ja = choose|j: int| 0 <= j < k2.len() && #[trigger] k2[j] == a;
        let jb = choose|j: int| 0 <= j < k1.len() && #[trigger] k1[j] == b;
        if a != b {
            if ja < k2.len() - 1 {
                assert(lt(k2[ja], k2[k2.len() - 1]));
            }
            if jb < k1.len() - 1 {
                assert(lt(k1[jb], k1[k1.len() - 1]));
            }
            assert(lt(a, b) && lt(b, a));
            assert(lt(a, a));
        }
        let m2 = m.remove(a);
        assert(lists_by(k1.drop_last(), v1.drop_last(), m2, lt)) by {
            assert forall|i: int| 0 <= i < k1.len() - 1 implies m2.contains_key(#[trigger] k1.drop_last()[i])
                && m2[k1.drop_last()[i]] == v1.drop_last()[i] by {
                assert(lt(k1[i], k1[k1.len() - 1]));
                if k1[i] == a {
                    assert(lt(a, a));
                }
            }
            assert forall|k: K| m2.contains_key(k) implies exists|i: int|
                0 <= i < k1.drop_last().len() && #[trigger] k1.drop_last()[i] == k by {
                let i = choose|i: int| 0 <= i < k1.len() && #[trigger] k1[i] == k;
                assert(k1.drop_last()[i] == k);
            }
        }
        assert(lists_by(k2.drop_last(), v2.drop_last(), m2, lt)) by {
            assert forall|i: int| 0 <= i < k2.len() - 1 implies m2.contains_key(#[trigger] k2.drop_last()[i])
                && m2[k2.drop_last()[i]] == v2.drop_last()[i] by {
                assert(lt(k2[i], k2[k2.len() - 1]));
                if k2[i] == a {
                    assert(lt(a, a));
                }
            }
            assert forall|k: K| m2.contains_key(k) implies exists|i: int|
                0 <= i < k2.drop_last().len() && #[trigger] k2.drop_last()[i] == k by {
                let i = choose|i: int| 0 <= i < k2.len() && #[trigger] k2[i] == k;
                assert(k2.drop_last()[i] == k);
            }
        }
        lemma_listing_unique(k1.drop_last(), v1.drop_last(), k2.drop_last(), v2.drop_last(), m2, lt);
        assert(k1 =~= k1.drop_last().push(a));
        assert(k2 =~= k2.drop_last().push(a));
        assert(v1 =~= v1.drop_last().push(v1.last()));
        assert(v2 =~= v2.drop_last().push(v2.last()));
        assert(v1.last() == m[a]);
        assert(v2.last() == m[a]);
    }
}

/// Any listing of `m` is the listing of `m`.
pub proof fn lemma_listing<K, V>(ks: Seq<K>, vs: Seq<V>, m: Map<K, V>, lt: spec_fn(K, K) -> bool)
    requires
        strict_total(lt),
        lists_by(ks, vs, m, lt),
    ensures
        listing(m, lt) == (ks, vs),
{
    let w = (ks, vs);
    assert(lists_by(w.0, w.1, m, lt));
    let p = listing(m, lt);
    assert(lists_by(p.0, p.1, m, lt));
    lemma_listing_unique(ks, vs, p.0, p.1, m, lt);
}


/// Where `k` goes among sorted keys that do not hold it.
proof fn lemma_insert_position<K>(ks: Seq<K>, k: K, lt: spec_fn(K, K) -> bool) -> (p: int)
    requires
        strict_total(lt),
        forall|i: int, j: int| 0 <= i < j < ks.len() ==> lt(#[trigger] ks[i], #[trigger] ks[j]),
        forall|i: int| 0 <= i < ks.len() ==> #[trigger] ks[i] != k,
    ensures
        0 <= p <= ks.len(),
        forall|i: int| 0 <= i < p ==> lt(#[trigger] ks[i], k),
        p == ks.len() || lt(k, ks[p]),
    decreases ks.len(),
{
    if ks.len() == 0 {
        0
    } else {
        let last = ks.len() - 1;
        assert(ks[last] != k);
        if lt(ks[last], k) {
            assert forall|i: int| 0 <= i < ks.len() implies lt(#[trigger] ks[i], k) by {
                if i < last {
                    assert(lt(ks[i], ks[last]));
                }
            }
            ks.len() as int
        } else {
            assert(lt(k, ks[last]));
            let rest = ks.drop_last();
            assert forall|i: int, j: int| 0 <= i < j < rest.len() implies lt(#[trigger] rest[i], #[trigger] rest[j]) by {
                assert(rest[i] == ks[i] && rest[j] == ks[j]);
            }
            assert forall|i: int| 0 <= i < rest.len() implies #[trigger] rest[i] != k by {
                assert(rest[i] == ks[i]);
            }
            let p = lemma_insert_position(rest, k, lt);
            assert forall|i: int| 0 <= i < p implies lt(#[trigger] ks[i], k) by {
                assert(rest[i] == ks[i]);
            }
            if p < rest.len() {
                assert(rest[p] == ks[p]);
            }
            p
        }
    }
}

/// A finite map has a listing in a strict total order.
pub proof fn lemma_listing_exists<K, V>(m: Map<K, V>, lt: spec_fn(K, K) -> bool)
    requires
        strict_total(lt),
        m.dom().finite(),
    ensures
        lists_by(listing(m, lt).0, listing(m, lt).1, m, lt),
    decreases m.dom().len(),
{
    if m.dom().len() == 0 {
        assert(m.dom() =~= Set::empty()) by {
            if exists|k: K| m.dom().contains(k) {
                let k = choose|k: K| m.dom().contains(k);
                vstd::set_lib::lemma_set_empty_equivalency_len(m.dom());
            }
        }
        let e: (Seq<K>, Seq<V>) = (seq![], seq![]);
        assert(lists_by(e.0, e.1, m, lt));
    } else {
        let k = m.dom().choose();
        vstd::set_lib::lemma_set_empty_equivalency_len(m.dom());
        assert(m.dom().contains(k));
        let rest = m.remove(k);
        assert(rest.dom() =~= m.dom().remove(k));
        lemma_listing_exists(rest, lt);
        let ks = listing(rest, lt).0;
        let vs = listing(rest, lt).1;
        assert forall|i: int| 0 <= i < ks.len() implies #[trigger] ks[i] != k by {
            assert(rest.contains_key(ks[i]));
        }
        let p = lemma_insert_position(ks, k, lt);
        lemma_lists_insert(ks, vs, rest, lt, p, k, m[k]);
        assert(rest.insert(k, m[k]) =~= m);
        let w = (ks.insert(p, k), vs.insert(p, m[k]));
        assert(lists_by(w.0, w.1, m, lt));
    }
}

} // verus!
