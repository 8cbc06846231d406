//! Deterministic ordering of search results: shorter normalized keys come
//! first (an exact match before its extensions), ties broken by
//! lexicographic name order.

use vstd::prelude::*;
use vstd::seq_lib::group_to_multiset_ensures;
use vstd::string::StrSliceExecFns;
use crate::text::{norm_seq, normalize};

verus! {

broadcast use group_to_multiset_ensures;

/// Lexicographic order on character sequences by code point.
pub open spec fn lex_leq(a: Seq<char>, b: Seq<char>) -> bool
    decreases a.len(),
{
    if a.len() == 0 {
        true
    } else if b.len() == 0 {
        false
    } else if a[0] == b[0] {
        lex_leq(a.drop_first(), b.drop_first())
    } else {
        a[0] < b[0]
    }
}

pub proof fn lemma_lex_leq_total(a: Seq<char>, b: Seq<char>)
    ensures
        lex_leq(a, b) || lex_leq(b, a),
    decreases a.len(),
{
    if a.len() == 0 {
    } else if b.len() == 0 {
    } else if a[0] == b[0] {
        lemma_lex_leq_total(a.drop_first(), b.drop_first());
    }
}

pub proof fn lemma_lex_leq_trans(a: Seq<char>, b: Seq<char>, c: Seq<char>)
    requires
        lex_leq(a, b),
        lex_leq(b, c),
    ensures
        lex_leq(a, c),
    decreases a.len(),
{
    if a.len() == 0 {
    } else {
        if a[0] == b[0] && b[0] == c[0] {
            lemma_lex_leq_trans(a.drop_first(), b.drop_first(), c.drop_first());
        }
    }
}

/// Order on package names: by length of the normalized name (an exact
/// match before its extensions), then lexicographically.
pub open spec fn key_le(a: Seq<char>, b: Seq<char>) -> bool {
    norm_seq(a).len() < norm_seq(b).len() || (norm_seq(a).len() == norm_seq(b).len() && lex_leq(
        a,
        b,
    ))
}

/// Order on search hits `(name, version)`: by their names.
pub open spec fn hit_le(a: (String, String), b: (String, String)) -> bool {
    key_le(a.0@, b.0@)
}

pub proof fn lemma_hit_le_total(a: (String, String), b: (String, String))
    ensures
        hit_le(a, b) || hit_le(b, a),
{
    lemma_lex_leq_total(a.0@, b.0@);
}

pub proof fn lemma_hit_le_trans(a: (String, String), b: (String, String), c: (String, String))
    requires
        hit_le(a, b),
        hit_le(b, c),
    ensures
        hit_le(a, c),
{
    if norm_seq(a.0@).len() == norm_seq(b.0@).len() && norm_seq(b.0@).len() == norm_seq(
        c.0@,
    ).len() {
        lemma_lex_leq_trans(a.0@, b.0@, c.0@);
    }
}

fn lex_leq_exec(a: &str, b: &str) -> (r: bool)
    ensures
        r == lex_leq(a@, b@),
{
    let na: usize = a.unicode_len();
    let nb: usize = b.unicode_len();
    proof {
        assert(a@.skip(0) =~= a@);
        assert(b@.skip(0) =~= b@);
    }
    let mut i: usize = 0;
    while i < na && i < nb
        invariant
            i <= na,
            i <= nb,
            na == a@.len(),
            nb == b@.len(),
            lex_leq(a@, b@) == lex_leq(a@.skip(i as int), b@.skip(i as int)),
        decreases na - i,
    {
        let ca = a.get_char(i);
        let cb = b.get_char(i);
        if ca == cb {
            proof {
                assert(a@.skip(i as int).drop_first() =~= a@.skip(i + 1 as int));
                assert(b@.skip(i as int).drop_first() =~= b@.skip(i + 1 as int));
            }
            i += 1;
        } else {
            return ca < cb;
        }
    }
    proof {
        if i >= na {
            assert(a@.skip(i as int).len() == 0);
        } else {
            assert(b@.skip(i as int).len() == 0);
            assert(a@.skip(i as int).len() > 0);
        }
    }
    i >= na
}

fn hit_le_exec(a: &(String, String), b: &(String, String)) -> (r: bool)
    ensures
        r == hit_le(*a, *b),
{
    let ka = normalize(a.0.as_str());
    let kb = normalize(b.0.as_str());
    let la: usize = ka.as_str().unicode_len();
    let lb: usize = kb.as_str().unicode_len();
    if la < lb {
        true
    } else if la > lb {
        false
    } else {
        lex_leq_exec(a.0.as_str(), b.0.as_str())
    }
}

fn insert_pos(v: &Vec<(String, String)>, x: &(String, String), i: usize) -> (r: usize)
    requires
        i <= v@.len(),
    ensures
        r <= i,
        forall|q: int| r <= q < i ==> hit_le(*x, v@[q]),
        r > 0 ==> hit_le(v@[r - 1], *x),
{
    let mut j: usize = i;
    while j > 0
        invariant
            j <= i,
            i <= v@.len(),
            forall|q: int| j <= q < i ==> hit_le(*x, v@[q]),
        decreases j,
    {
        if hit_le_exec(&v[j - 1], x) {
            return j;
        }
        proof {
            lemma_hit_le_total(v@[j - 1 as int], *x);
        }
        j -= 1;
    }
    0
}

/// Sorts search hits into the deterministic result order, keeping exactly
/// the same collection of hits.
pub fn sort_hits(v: &mut Vec<(String, String)>)
    ensures
        final(v)@.to_multiset() == old(v)@.to_multiset(),
        final(v)@.len() == old(v)@.len(),
        forall|p: int, q: int| 0 <= p < q < final(v)@.len() ==> hit_le(final(v)@[p], final(v)@[q]),
{
    let ghost orig = v@;
    if v.len() <= 1 {
        return;
    }
    let mut i: usize = 1;
    while i < v.len()
        invariant
            1 <= i <= v@.len(),
            v@.len() == orig.len(),
            v@.to_multiset() == orig.to_multiset(),
            forall|p: int, q: int| 0 <= p < q < i ==> hit_le(v@[p], v@[q]),
        decreases v@.len() - i,
    {
        let ghost before = v@;
        let x = v.remove(i);
        let ghost mid = v@;
        proof {
            assert(mid == before.remove(i as int));
            assert forall|k: int| 0 <= k < i implies mid[k] == before[k] by {}
            assert(before.remove(i as int).to_multiset() == before.to_multiset().remove(
                before[i as int],
            ));
        }
        let j: usize = insert_pos(v, &x, i);
        v.insert(j, x);
        proof {
            assert(v@ == mid.insert(j as int, x));
            assert(mid.insert(j as int, x).to_multiset() == mid.to_multiset().insert(x));
            assert(before.to_multiset().contains(x)) by {
                assert(before[i as int] == x);
                assert(before.contains(x));
            }
            assert(v@.to_multiset() =~= before.to_multiset());
            assert forall|p: int, q: int| 0 <= p < q < i + 1 implies hit_le(v@[p], v@[q]) by {
                if q < j {
                    assert(v@[p] == mid[p] && v@[q] == mid[q]);
                } else if p > j {
                    assert(v@[p] == mid[p - 1] && v@[q] == mid[q - 1]);
                } else if p < j && q == j {
                    assert(v@[p] == mid[p]);
                    assert(v@[q] == x);
                    assert(hit_le(mid[j - 1 as int], x));
                    if p < j - 1 {
                        assert(hit_le(mid[p], mid[j - 1 as int]));
                        lemma_hit_le_trans(mid[p], mid[j - 1 as int], x);
                    }
                } else if p == j && q > j {
                    assert(v@[p] == x && v@[q] == mid[q - 1]);
                    assert(hit_le(x, mid[q - 1]));
                } else if p < j && q > j {
                    assert(v@[p] == mid[p] && v@[q] == mid[q - 1]);
                    assert(hit_le(mid[p], mid[q - 1]));
                }
            }
        }
        i += 1;
    }
}

} // verus!
