//! Byte-lexicographic order on keys.
//!
//! Range scans yield keys in ascending byte order. The index itself is
//! unordered, so a scan sorts its snapshot; this module holds the order, the
//! comparator, and the sort.

use vstd::prelude::*;
use vstd::seq_lib::to_multiset_insert;
use vstd::multiset::Multiset;

verus! {

/// Strict byte-lexicographic order: `a` comes before `b`.
pub open spec fn lex_lt(a: Seq<u8>, b: Seq<u8>) -> bool
    decreases a.len(),
{
    if b.len() == 0 {
        false
    } else if a.len() == 0 {
        true
    } else if a[0] < b[0] {
        true
    } else if a[0] > b[0] {
        false
    } else {
        lex_lt(a.skip(1), b.skip(1))
    }
}

/// Byte-lexicographic order, allowing equality.
pub open spec fn lex_le(a: Seq<u8>, b: Seq<u8>) -> bool {
    lex_lt(a, b) || a == b
}

/// Of `lex_lt(a, b)`, `a == b` and `lex_lt(b, a)`, exactly one holds: the
/// order is total and strict.
pub proof fn lemma_lex_trichotomy(a: Seq<u8>, b: Seq<u8>)
    ensures
        lex_lt(a, b) || a == b || lex_lt(b, a),
        lex_lt(a, b) ==> a != b && !lex_lt(b, a),
        a == b ==> !lex_lt(a, b),
    decreases a.len(),
{
    if a.len() == 0 && b.len() == 0 {
        assert(a =~= b);
    } else if a.len() > 0 && b.len() > 0 && a[0] == b[0] {
        lemma_lex_trichotomy(a.skip(1), b.skip(1));
        assert(forall|i: int| 1 <= i < a.len() ==> #[trigger] a[i] == a.skip(1)[i - 1]);
        assert(forall|i: int| 1 <= i < b.len() ==> #[trigger] b[i] == b.skip(1)[i - 1]);
        if a.skip(1) == b.skip(1) {
            assert(a =~= b);
        }
        if a == b {
            assert(a.skip(1) =~= b.skip(1));
        }
    } else {
        if a == b {
            assert(a.len() == b.len());
            if a.len() > 0 {
                assert(a[0] == b[0]);
            }
        }
    }
}

/// The order is transitive.
pub proof fn lemma_lex_transitive(a: Seq<u8>, b: Seq<u8>, c: Seq<u8>)
    requires
        lex_lt(a, b),
        lex_lt(b, c),
    ensures
        lex_lt(a, c),
    decreases a.len(),
{
    if a.len() > 0 && b.len() > 0 && c.len() > 0 {
        if a[0] == b[0] && b[0] == c[0] {
            lemma_lex_transitive(a.skip(1), b.skip(1), c.skip(1));
        }
    }
}

/// Transitivity for the order allowing equality.
pub proof fn lemma_lex_le_transitive(a: Seq<u8>, b: Seq<u8>, c: Seq<u8>)
    requires
        lex_le(a, b),
        lex_le(b, c),
    ensures
        lex_le(a, c),
{
    if lex_lt(a, b) && lex_lt(b, c) {
        lemma_lex_transitive(a, b, c);
    }
}

/// Whether `a` comes strictly before `b` in byte order.
pub fn lex_less(a: &[u8], b: &[u8]) -> (r: bool)
    ensures
        r == lex_lt(a@, b@),
{
    let a_len = a.len();
    let b_len = b.len();
    let n = if a_len < b_len {
        a_len
    } else {
        b_len
    };
    proof {
        assert(a@.skip(0) =~= a@);
        assert(b@.skip(0) =~= b@);
    }
    let mut i: usize = 0;
    while i < n
        invariant
            0 <= i <= n,
            n == if a@.len() < b@.len() {
                a@.len()
            } else {
                b@.len()
            },
            lex_lt(a@, b@) == lex_lt(a@.skip(i as int), b@.skip(i as int)),
        decreases n - i,
    {
        let x = a[i];
        let y = b[i];
        proof {
            let sa = a@.skip(i as int);
            let sb = b@.skip(i as int);
            assert(sa[0] == a@[i as int] && sb[0] == b@[i as int]);
            if x == y {
                assert(sa.skip(1) =~= a@.skip(i + 1));
                assert(sb.skip(1) =~= b@.skip(i + 1));
            }
        }
        if x < y {
            return true;
        }
        if x > y {
            return false;
        }
        i = i + 1;
    }
    proof {
        let sa = a@.skip(i as int);
        let sb = b@.skip(i as int);
        if a@.len() == b@.len() {
            assert(sa.len() == 0 && sb.len() == 0);
        } else if a@.len() < b@.len() {
            assert(sa.len() == 0 && sb.len() > 0);
        } else {
            assert(sb.len() == 0);
        }
    }
    a_len < b_len
}

/// The key-value pairs a vector of byte vectors stands for.
pub open spec fn pairs_view(v: Seq<(Vec<u8>, Vec<u8>)>) -> Seq<(Seq<u8>, Seq<u8>)> {
    v.map_values(|p: (Vec<u8>, Vec<u8>)| (p.0@, p.1@))
}

/// The pairs of `ps` stand in ascending key order, ties allowed.
pub open spec fn sorted_pairs(ps: Seq<(Seq<u8>, Seq<u8>)>) -> bool {
    forall|i: int, j: int|
        0 <= i < j < ps.len() ==> lex_le((#[trigger] ps[i]).0, (#[trigger] ps[j]).0)
}

/// The first position in the sorted `out` whose key does not come before
/// `key`: where an insertion keeps the order.
fn find_pos(out: &Vec<(Vec<u8>, Vec<u8>)>, key: &Vec<u8>) -> (j: usize)
    ensures
        j <= out@.len(),
        forall|t: int| 0 <= t < j ==> lex_lt((#[trigger] pairs_view(out@)[t]).0, key@),
        j < out@.len() ==> !lex_lt(pairs_view(out@)[j as int].0, key@),
{
    let mut j: usize = 0;
    while j < out.len()
        invariant
            0 <= j <= out@.len(),
            forall|t: int| 0 <= t < j ==> lex_lt((#[trigger] pairs_view(out@)[t]).0, key@),
        decreases out@.len() - j,
    {
        if !lex_less(out[j].0.as_slice(), key.as_slice()) {
            return j;
        }
        j = j + 1;
    }
    j
}

/// Two sequences with the same multiset hold the same elements; and where
/// one repeats nothing, neither does the other, and their lengths agree.
pub proof fn lemma_permutation_props<A>(src: Seq<A>, dst: Seq<A>)
    requires
        dst.to_multiset() == src.to_multiset(),
        forall|i: int, j: int| 0 <= i < j < src.len() ==> src[i] != src[j],
    ensures
        forall|p: A| dst.contains(p) <==> src.contains(p),
        forall|i: int, j: int| 0 <= i < j < dst.len() ==> dst[i] != dst[j],
        dst.len() == src.len(),
{
    broadcast use vstd::seq_lib::group_to_multiset_ensures;

    assert(src.no_duplicates());
    src.lemma_multiset_has_no_duplicates();
    assert(dst.len() == dst.to_multiset().len());
    assert(src.len() == src.to_multiset().len());
    dst.lemma_multiset_has_no_duplicates_conv();
    assert forall|p: A| dst.contains(p) <==> src.contains(p) by {
        assert(dst.contains(p) <==> dst.to_multiset().count(p) > 0);
        assert(src.contains(p) <==> src.to_multiset().count(p) > 0);
    }
}

/// Sorts key-value pairs into ascending key order. The result holds exactly
/// the pairs given, each as often as it was given.
pub fn sort_pairs(input: Vec<(Vec<u8>, Vec<u8>)>) -> (r: Vec<(Vec<u8>, Vec<u8>)>)
    ensures
        sorted_pairs(pairs_view(r@)),
        pairs_view(r@).to_multiset() == pairs_view(input@).to_multiset(),
{
    broadcast use vstd::seq_lib::group_to_multiset_ensures;
    broadcast use vstd::multiset::group_multiset_axioms;

    let mut rest = input;
    let mut out: Vec<(Vec<u8>, Vec<u8>)> = Vec::new();
    proof {
        assert(pairs_view(out@) =~= Seq::<(Seq<u8>, Seq<u8>)>::empty());
        assert(pairs_view(out@).to_multiset() =~= Multiset::<(Seq<u8>, Seq<u8>)>::empty());
    }
    let ghost all = pairs_view(input@).to_multiset();
    while rest.len() > 0
        invariant
            sorted_pairs(pairs_view(out@)),
            pairs_view(out@).to_multiset().add(pairs_view(rest@).to_multiset()) == all,
        decreases rest.len(),
    {
        let ghost rest0 = pairs_view(rest@);
        let p = rest.pop().unwrap();
        let ghost pv = (p.0@, p.1@);
        proof {
            assert(pairs_view(rest@) =~= rest0.drop_last());
            assert(rest0 =~= rest0.drop_last().insert(rest0.len() - 1, rest0.last()));
            to_multiset_insert(rest0.drop_last(), rest0.len() - 1, rest0.last());
            assert(pv == rest0.last());
        }
        let j = find_pos(&out, &p.0);
        let ghost out0 = pairs_view(out@);
        let ghost jj = j as int;
        proof {
            if jj < out0.len() {
                lemma_lex_trichotomy(out0[jj].0, pv.0);
                assert(lex_le(pv.0, out0[jj].0));
            }
        }
        out.insert(j, p);
        proof {
            assert(pairs_view(out@) =~= out0.insert(jj, pv));
            to_multiset_insert(out0, jj, pv);
            assert(pairs_view(out@).to_multiset().add(pairs_view(rest@).to_multiset()) =~= all);
            assert forall|x: int, y: int|
                0 <= x < y < pairs_view(out@).len() implies lex_le(
                (#[trigger] pairs_view(out@)[x]).0,
                (#[trigger] pairs_view(out@)[y]).0,
            ) by {
                let ov = pairs_view(out@);
                if y < jj {
                    assert(ov[x] == out0[x] && ov[y] == out0[y]);
                } else if x > jj {
                    assert(ov[x] == out0[x - 1] && ov[y] == out0[y - 1]);
                } else if x == jj {
                    assert(ov[x] == pv && ov[y] == out0[y - 1]);
                    assert(lex_le(pv.0, out0[jj].0));
                    if y - 1 > jj {
                        assert(lex_le(out0[jj].0, out0[y - 1].0));
                        lemma_lex_le_transitive(pv.0, out0[jj].0, out0[y - 1].0);
                    }
                } else if y == jj {
                    assert(ov[x] == out0[x] && ov[y] == pv);
                    assert(lex_lt(out0[x].0, pv.0));
                } else {
                    assert(x < jj && jj < y);
                    assert(ov[x] == out0[x] && ov[y] == out0[y - 1]);
                    assert(lex_lt(out0[x].0, pv.0));
                }
            }
        }
    }
    proof {
        assert(pairs_view(rest@) =~= Seq::<(Seq<u8>, Seq<u8>)>::empty());
        assert(pairs_view(rest@).to_multiset() =~= Multiset::<(Seq<u8>, Seq<u8>)>::empty());
        assert(pairs_view(out@).to_multiset().add(Multiset::empty())
            =~= pairs_view(out@).to_multiset());
    }
    out
}

} // verus!
