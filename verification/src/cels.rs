//! The cels of a file: entries keyed by (layer index, frame index), kept
//! in strictly increasing key order, so that they form a map and are
//! visited in key order.

use vstd::prelude::*;
use crate::model::CelModel;
use crate::types::Cel;

verus! {

/// The order of cel keys: by layer index, then by frame index.
pub open spec fn key_lt(a: (usize, usize), b: (usize, usize)) -> bool {
    a.0 < b.0 || (a.0 == b.0 && a.1 < b.1)
}

/// Keys strictly increase along the entries.
pub open spec fn cels_sorted(s: Seq<((usize, usize), CelModel)>) -> bool {
    forall|i: int, j: int| 0 <= i < j < s.len() ==> key_lt(#[trigger] s[i].0, #[trigger] s[j].0)
}

/// Whether an entry has key `k`.
pub open spec fn has_key(s: Seq<((usize, usize), CelModel)>, k: (usize, usize)) -> bool {
    exists|i: int| 0 <= i < s.len() && #[trigger] s[i].0 == k
}

/// The cel stored under key `k`, if any.
pub open spec fn cel_lookup(s: Seq<((usize, usize), CelModel)>, k: (usize, usize)) -> Option<CelModel> {
    if has_key(s, k) {
        Some(s[choose|i: int| 0 <= i < s.len() && #[trigger] s[i].0 == k].1)
    } else {
        None
    }
}

/// The entries with `(k, c)` put in key order, replacing an entry with key
/// `k` if there is one.
pub open spec fn cel_insert(s: Seq<((usize, usize), CelModel)>, k: (usize, usize), c: CelModel) -> Seq<
    ((usize, usize), CelModel),
>
    decreases s.len(),
{
    if s.len() == 0 {
        seq![(k, c)]
    } else if key_lt(s.last().0, k) {
        s.push((k, c))
    } else if s.last().0 == k {
        s.drop_last().push((k, c))
    } else {
        cel_insert(s.drop_last(), k, c).push(s.last())
    }
}

/// The entries with the cel under key `k` (if any) changed by `f`.
pub open spec fn cel_modify(
    s: Seq<((usize, usize), CelModel)>,
    k: (usize, usize),
    f: spec_fn(CelModel) -> CelModel,
) -> Seq<((usize, usize), CelModel)> {
    s.map_values(|e: ((usize, usize), CelModel)| if e.0 == k { (e.0, f(e.1)) } else { e })
}

pub open spec fn cel_views(v: Seq<((usize, usize), Cel)>) -> Seq<((usize, usize), CelModel)> {
    v.map_values(|e: ((usize, usize), Cel)| (e.0, e.1@))
}

pub proof fn lemma_lookup_at(s: Seq<((usize, usize), CelModel)>, i: int)
    requires
        cels_sorted(s),
        0 <= i < s.len(),
    ensures
        cel_lookup(s, s[i].0) == Some(s[i].1),
{
    let k = s[i].0;
    assert(has_key(s, k));
    let j = choose|j: int| 0 <= j < s.len() && #[trigger] s[j].0 == k;
    if j < i {
        assert(key_lt(s[j].0, s[i].0));
    } else if i < j {
        assert(key_lt(s[i].0, s[j].0));
    }
}

pub proof fn lemma_lookup_absent(s: Seq<((usize, usize), CelModel)>, k: (usize, usize))
    requires
        forall|i: int| 0 <= i < s.len() ==> s[i].0 != k,
    ensures
        cel_lookup(s, k) is None,
{
}

/// The insertion form of `cel_insert`: at the first position whose key is
/// not below `k`, the entry is replaced (same key) or the new one put in.
proof fn lemma_insert_split(s: Seq<((usize, usize), CelModel)>, k: (usize, usize), c: CelModel, p: int)
    requires
        cels_sorted(s),
        0 <= p <= s.len(),
        forall|i: int| 0 <= i < p ==> key_lt(#[trigger] s[i].0, k),
        p < s.len() ==> !key_lt(s[p].0, k),
    ensures
        cel_insert(s, k, c) == (if p < s.len() && s[p].0 == k {
            s.update(p, (k, c))
        } else {
            s.insert(p, (k, c))
        }),
    decreases s.len(),
{
    if s.len() == 0 {
        assert(s.insert(0, (k, c)) =~= seq![(k, c)]);
    } else if p == s.len() {
        assert(key_lt(s[s.len() - 1].0, k));
        assert(s.insert(p, (k, c)) =~= s.push((k, c)));
    } else {
        let n = s.len() - 1;
        if p < n {
            assert(key_lt(s[p].0, s[n].0));
        }
        assert(!key_lt(s.last().0, k));
        if s.last().0 == k {
            if p < n {
                assert(key_lt(s[p].0, s[n].0));
                assert(false);
            }
            assert(s.drop_last().push((k, c)) =~= s.update(p, (k, c)));
        } else {
            let t = s.drop_last();
            assert(cels_sorted(t));
            assert forall|i: int| 0 <= i < p implies key_lt(#[trigger] t[i].0, k) by {
                assert(t[i] == s[i]);
            }
            lemma_insert_split(t, k, c, p);
            if p < n && s[p].0 == k {
                assert(t.update(p, (k, c)).push(s.last()) =~= s.update(p, (k, c)));
            } else {
                assert(t.insert(p, (k, c)).push(s.last()) =~= s.insert(p, (k, c)));
            }
        }
    }
}

/// Inserting keeps the keys in order and stores `c` under `k`, leaving the
/// other keys as they were.
pub proof fn lemma_insert_props(s: Seq<((usize, usize), CelModel)>, k: (usize, usize), c: CelModel)
    requires
        cels_sorted(s),
    ensures
        cels_sorted(cel_insert(s, k, c)),
        cel_lookup(cel_insert(s, k, c), k) == Some(c),
        forall|k2: (usize, usize)| k2 != k ==> cel_lookup(#[trigger] cel_insert(s, k, c), k2) == cel_lookup(s, k2),
{
    let p = first_not_below(s, k);
    lemma_first_not_below(s, k);
    lemma_insert_split(s, k, c, p);
    let t = cel_insert(s, k, c);
    if p < s.len() && s[p].0 == k {
        assert(cels_sorted(t));
        lemma_lookup_at(t, p);
        assert forall|k2: (usize, usize)| k2 != k implies cel_lookup(t, k2) == cel_lookup(s, k2) by {
            if has_key(s, k2) {
                let j = choose|j: int| 0 <= j < s.len() && #[trigger] s[j].0 == k2;
                lemma_lookup_at(s, j);
                lemma_lookup_at(t, j);
            } else {
                if has_key(t, k2) {
                    let j = choose|j: int| 0 <= j < t.len() && #[trigger] t[j].0 == k2;
                    assert(s[j].0 == k2);
                }
            }
        }
    } else {
        assert forall|i: int, j: int| 0 <= i < j < t.len() implies key_lt(#[trigger] t[i].0, #[trigger] t[j].0) by {
            if j < p {
            } else if j == p {
            } else if i < p {
                assert(!key_lt(s[j - 1].0, k));
            } else if i == p {
                if j - 1 > p {
                    assert(key_lt(s[p].0, s[j - 1].0));
                }
                assert(!key_lt(s[j - 1].0, k));
                assert(s[j - 1].0 != k);
            } else {
            }
        }
        lemma_lookup_at(t, p);
        assert forall|k2: (usize, usize)| k2 != k implies cel_lookup(t, k2) == cel_lookup(s, k2) by {
            if has_key(s, k2) {
                let j = choose|j: int| 0 <= j < s.len() && #[trigger] s[j].0 == k2;
                lemma_lookup_at(s, j);
                if j < p {
                    lemma_lookup_at(t, j);
                } else {
                    assert(t[j + 1] == s[j]);
                    lemma_lookup_at(t, j + 1);
                }
            } else {
                if has_key(t, k2) {
                    let j = choose|j: int| 0 <= j < t.len() && #[trigger] t[j].0 == k2;
                    if j < p {
                        assert(s[j].0 == k2);
                    } else if j > p {
                        assert(s[j - 1].0 == k2);
                    }
                }
            }
        }
    }
}

/// The first position whose key is not below `k`.
pub open spec fn first_not_below(s: Seq<((usize, usize), CelModel)>, k: (usize, usize)) -> int
    decreases s.len(),
{
    if s.len() == 0 {
        0
    } else if key_lt(s.last().0, k) {
        s.len() as int
    } else {
        first_not_below(s.drop_last(), k)
    }
}

proof fn lemma_first_not_below(s: Seq<((usize, usize), CelModel)>, k: (usize, usize))
    requires
        cels_sorted(s),
    ensures
        0 <= first_not_below(s, k) <= s.len(),
        forall|i: int| 0 <= i < first_not_below(s, k) ==> key_lt(#[trigger] s[i].0, k),
        first_not_below(s, k) < s.len() ==> !key_lt(s[first_not_below(s, k)].0, k),
    decreases s.len(),
{
    if s.len() > 0 {
        let t = s.drop_last();
        lemma_first_not_below(t, k);
        if key_lt(s.last().0, k) {
            assert forall|i: int| 0 <= i < s.len() implies key_lt(#[trigger] s[i].0, k) by {
                if i < s.len() - 1 {
                    assert(key_lt(s[i].0, s[s.len() - 1].0));
                }
            }
        } else {
            let p = first_not_below(t, k);
            assert forall|i: int| 0 <= i < p implies key_lt(#[trigger] s[i].0, k) by {
                assert(s[i] == t[i]);
            }
        }
    }
}

/// Modifying the cel under one key keeps the key order.
pub proof fn lemma_modify_props(s: Seq<((usize, usize), CelModel)>, k: (usize, usize), f: spec_fn(CelModel) -> CelModel)
    requires
        cels_sorted(s),
    ensures
        cels_sorted(cel_modify(s, k, f)),
        cel_modify(s, k, f).len() == s.len(),
        forall|i: int| 0 <= i < s.len() ==> (#[trigger] cel_modify(s, k, f)[i]).0 == s[i].0,
{
}

/// The position of the entry with key `k`, if there is one.
pub fn find_cel(v: &Vec<((usize, usize), Cel)>, k: (usize, usize)) -> (r: Option<usize>)
    requires
        cels_sorted(cel_views(v@)),
    ensures
        match r {
            Some(i) => i < v@.len() && v@[i as int].0 == k && cel_lookup(cel_views(v@), k) == Some(
                v@[i as int].1@,
            ),
            None => cel_lookup(cel_views(v@), k) is None && !has_key(cel_views(v@), k),
        },
{
    let mut i: usize = 0;
    while i < v.len()
        invariant
            i <= v@.len(),
            cels_sorted(cel_views(v@)),
            forall|j: int| 0 <= j < i ==> v@[j].0 != k,
        decreases v@.len() - i,
    {
        let e = &v[i];
        if e.0.0 == k.0 && e.0.1 == k.1 {
            proof {
                lemma_lookup_at(cel_views(v@), i as int);
            }
            return Some(i);
        }
        i = i + 1;
    }
    proof {
        assert forall|j: int| 0 <= j < cel_views(v@).len() implies cel_views(v@)[j].0 != k by {
            assert(v@[j].0 != k);
        }
    }
    None
}

/// Puts `cel` under key `k`, replacing the cel stored there.
pub fn insert_cel(v: &mut Vec<((usize, usize), Cel)>, k: (usize, usize), cel: Cel)
    requires
        cels_sorted(cel_views(old(v)@)),
    ensures
        cel_views(final(v)@) == cel_insert(cel_views(old(v)@), k, cel@),
        cels_sorted(cel_views(final(v)@)),
{
    let ghost s = cel_views(v@);
    let mut p: usize = 0;
    while p < v.len() && (v[p].0.0 < k.0 || (v[p].0.0 == k.0 && v[p].0.1 < k.1))
        invariant
            p <= v@.len(),
            s == cel_views(v@),
            forall|i: int| 0 <= i < p ==> key_lt(#[trigger] s[i].0, k),
        decreases v@.len() - p,
    {
        p = p + 1;
    }
    proof {
        lemma_insert_split(s, k, cel@, p as int);
        lemma_insert_props(s, k, cel@);
    }
    if p < v.len() && v[p].0.0 == k.0 && v[p].0.1 == k.1 {
        v.set(p, (k, cel));
        assert(cel_views(v@) =~= s.update(p as int, (k, cel@)));
    } else {
        v.insert(p, (k, cel));
        assert(cel_views(v@) =~= s.insert(p as int, (k, cel@)));
    }
}

/// Modifying the cel under `k` changes what is found there, and nothing
/// else.
pub proof fn lemma_modify_lookup(
    s: Seq<((usize, usize), CelModel)>,
    k: (usize, usize),
    f: spec_fn(CelModel) -> CelModel,
    k2: (usize, usize),
)
    requires
        cels_sorted(s),
    ensures
        cel_lookup(cel_modify(s, k, f), k2) == match cel_lookup(s, k2) {
            Some(c) => Some(if k2 == k { f(c) } else { c }),
            None => None::<CelModel>,
        },
{
    let t = cel_modify(s, k, f);
    lemma_modify_props(s, k, f);
    if has_key(s, k2) {
        let i = choose|i: int| 0 <= i < s.len() && #[trigger] s[i].0 == k2;
        lemma_lookup_at(s, i);
        lemma_lookup_at(t, i);
        assert(t[i].0 == k2);
    } else {
        assert forall|i: int| 0 <= i < t.len() implies t[i].0 != k2 by {
            assert(t[i].0 == s[i].0);
        }
        lemma_lookup_absent(t, k2);
    }
}

/// The cels of the first `j + 1` entries are those of the first `j` and
/// entry `j`.
pub proof fn lemma_lookup_take_next(s: Seq<((usize, usize), CelModel)>, j: int, k2: (usize, usize))
    requires
        cels_sorted(s),
        0 <= j < s.len(),
    ensures
        cel_lookup(s.take(j + 1), k2) == if k2 == s[j].0 {
            Some(s[j].1)
        } else {
            cel_lookup(s.take(j), k2)
        },
{
    let a = s.take(j + 1);
    let b = s.take(j);
    assert(cels_sorted(a));
    assert(cels_sorted(b));
    assert(a[j] == s[j]);
    if k2 == s[j].0 {
        lemma_lookup_at(a, j);
    } else if has_key(b, k2) {
        let i = choose|i: int| 0 <= i < b.len() && #[trigger] b[i].0 == k2;
        lemma_lookup_at(b, i);
        assert(a[i] == b[i]);
        lemma_lookup_at(a, i);
    } else {
        assert forall|i: int| 0 <= i < a.len() implies a[i].0 != k2 by {
            if i < j {
                assert(a[i] == b[i]);
            }
        }
        lemma_lookup_absent(a, k2);
    }
}

/// All the entries: the cels of the whole sequence.
pub proof fn lemma_lookup_take_all(s: Seq<((usize, usize), CelModel)>, k2: (usize, usize))
    ensures
        cel_lookup(s.take(s.len() as int), k2) == cel_lookup(s, k2),
{
    assert(s.take(s.len() as int) =~= s);
}

} // verus!
