//! Sequences of encoded records: one record's bytes after another, read
//! back in turn.

use vstd::prelude::*;

verus! {

/// The bytes of the records of `s`, one after the other.
pub open spec fn enc_list<T>(s: Seq<T>, f: spec_fn(T) -> Seq<u8>) -> Seq<u8>
    decreases s.len(),
{
    if s.len() == 0 {
        Seq::empty()
    } else {
        enc_list(s.drop_last(), f) + f(s.last())
    }
}

/// Reads `k` records in turn from `pos`; the records and the position after
/// them, or `None` where one of them cannot be read.
pub open spec fn dec_list<T>(b: Seq<u8>, pos: int, k: nat, g: spec_fn(Seq<u8>, int) -> Option<(T, int)>) -> Option<
    (Seq<T>, int),
>
    decreases k,
{
    if k == 0 {
        Some((Seq::empty(), pos))
    } else {
        match dec_list(b, pos, (k - 1) as nat, g) {
            Some((xs, p)) => match g(b, p) {
                Some((x, p2)) => Some((xs.push(x), p2)),
                None => None,
            },
            None => None,
        }
    }
}

/// `x` is read back by `g` from its bytes `f(x)`, whatever surrounds them.
pub open spec fn elem_codec_ok<T>(f: spec_fn(T) -> Seq<u8>, g: spec_fn(Seq<u8>, int) -> Option<(T, int)>, x: T) -> bool {
    forall|p: Seq<u8>, q: Seq<u8>|
        #[trigger] g(p + f(x) + q, p.len() as int) == Some((x, (p.len() + f(x).len()) as int))
}

pub proof fn lemma_enc_list_push<T>(s: Seq<T>, x: T, f: spec_fn(T) -> Seq<u8>)
    ensures
        enc_list(s.push(x), f) == enc_list(s, f) + f(x),
{
    assert(s.push(x).drop_last() =~= s);
}

/// Records read back from their bytes are the records written.
pub proof fn lemma_list_roundtrip<T>(
    s: Seq<T>,
    f: spec_fn(T) -> Seq<u8>,
    g: spec_fn(Seq<u8>, int) -> Option<(T, int)>,
    p: Seq<u8>,
    q: Seq<u8>,
)
    requires
        forall|i: int| 0 <= i < s.len() ==> elem_codec_ok(f, g, #[trigger] s[i]),
    ensures
        dec_list(p + enc_list(s, f) + q, p.len() as int, s.len(), g) == Some(
            (s, (p.len() + enc_list(s, f).len()) as int),
        ),
    decreases s.len(),
{
    if s.len() == 0 {
        assert(s =~= Seq::<T>::empty());
    } else {
        let s2 = s.drop_last();
        let x = s.last();
        let e2 = enc_list(s2, f);
        assert forall|i: int| 0 <= i < s2.len() implies elem_codec_ok(f, g, #[trigger] s2[i]) by {
            assert(s2[i] == s[i]);
        }
        lemma_list_roundtrip(s2, f, g, p, f(x) + q);
        assert(p + e2 + (f(x) + q) =~= p + enc_list(s, f) + q);
        assert(elem_codec_ok(f, g, s[s.len() - 1]));
        let pp = p + e2;
        assert(pp + f(x) + q =~= p + enc_list(s, f) + q);
        assert(g(pp + f(x) + q, pp.len() as int) == Some((x, (pp.len() + f(x).len()) as int)));
        assert(s2.push(x) =~= s);
    }
}

/// The bytes of records read back lie within the input.
pub proof fn lemma_dec_list_bounds<T>(b: Seq<u8>, pos: int, k: nat, g: spec_fn(Seq<u8>, int) -> Option<(T, int)>)
    requires
        forall|bb: Seq<u8>, pp: int| #[trigger] g(bb, pp) matches Some((_, p2)) ==> pp <= p2,
    ensures
        dec_list(b, pos, k, g) matches Some((xs, p)) ==> pos <= p && xs.len() == k,
    decreases k,
{
    if k > 0 {
        lemma_dec_list_bounds(b, pos, (k - 1) as nat, g);
    }
}

/// Once a record cannot be read, no longer run of records can be.
pub proof fn lemma_dec_list_fails_after<T>(b: Seq<u8>, pos: int, i: nat, k: nat, g: spec_fn(Seq<u8>, int) -> Option<(T, int)>)
    requires
        i < k,
        dec_list(b, pos, i, g) matches Some((_, p)) ==> g(b, p) is None,
    ensures
        dec_list(b, pos, k, g) is None,
    decreases k,
{
    if k == i + 1 {
    } else {
        lemma_dec_list_fails_after(b, pos, i, (k - 1) as nat, g);
    }
}

/// Records with the same bytes give the same list bytes.
pub proof fn lemma_enc_list_congr<T>(a: Seq<T>, b: Seq<T>, f: spec_fn(T) -> Seq<u8>)
    requires
        a.len() == b.len(),
        forall|i: int| 0 <= i < a.len() ==> f(#[trigger] a[i]) == f(b[i]),
    ensures
        enc_list(a, f) == enc_list(b, f),
    decreases a.len(),
{
    if a.len() > 0 {
        let n = a.len() - 1;
        assert(f(a[n]) == f(b[n]));
        assert forall|i: int| 0 <= i < a.drop_last().len() implies f(#[trigger] a.drop_last()[i]) == f(
            b.drop_last()[i],
        ) by {
            assert(f(a[i]) == f(b[i]));
        }
        lemma_enc_list_congr(a.drop_last(), b.drop_last(), f);
    }
}

} // verus!
