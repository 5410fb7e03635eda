//! Lexicographic order on character sequences, and sorted lists of distinct strings.
use vstd::prelude::*;
use crate::text::{strs_of, chars_of};
use vstd::relations::{sorted_by, total_ordering};
use vstd::seq_lib::to_multiset_insert;

verus! {

/// `a` comes strictly before `b`, comparing characters by code point from the
/// left (the order of `str`'s `Ord`).
pub open spec fn lex_lt(a: Seq<char>, b: Seq<char>) -> bool
    decreases a.len(),
{
    if a.len() == 0 {
        b.len() > 0
    } else if b.len() == 0 {
        false
    } else if a[0] != b[0] {
        a[0] < b[0]
    } else {
        lex_lt(a.drop_first(), b.drop_first())
    }
}

/// Each element comes strictly before the next.
pub open spec fn strictly_sorted(v: Seq<Seq<char>>) -> bool {
    forall|i: int, j: int| 0 <= i < j < v.len() ==> lex_lt(#[trigger] v[i], #[trigger] v[j])
}

pub proof fn lemma_lex_irreflexive(a: Seq<char>)
    ensures
        !lex_lt(a, a),
    decreases a.len(),
{
    if a.len() > 0 {
        lemma_lex_irreflexive(a.drop_first());
    }
}

pub proof fn lemma_lex_trichotomy(a: Seq<char>, b: Seq<char>)
    ensures
        a == b || lex_lt(a, b) || lex_lt(b, a),
    decreases a.len(),
{
    if a.len() > 0 && b.len() > 0 && a[0] == b[0] {
        lemma_lex_trichotomy(a.drop_first(), b.drop_first());
        if a.drop_first() == b.drop_first() {
            assert(a =~= seq![a[0]] + a.drop_first());
            assert(b =~= seq![b[0]] + b.drop_first());
        }
    } else if a.len() > 0 && b.len() > 0 {
        assert(a[0] != b[0]);
    } else if a.len() == 0 && b.len() == 0 {
        assert(a =~= b);
    }
}

pub proof fn lemma_lex_transitive(a: Seq<char>, b: Seq<char>, c: Seq<char>)
    requires
        lex_lt(a, b),
        lex_lt(b, c),
    ensures
        lex_lt(a, c),
    decreases a.len(),
{
    if a.len() > 0 && b.len() > 0 && c.len() > 0 && a[0] == b[0] && b[0] == c[0] {
        lemma_lex_transitive(a.drop_first(), b.drop_first(), c.drop_first());
    }
}

/// Compares `a` and `b`: whether `a` comes strictly before `b`.
pub fn lex_less(a: &str, b: &str) -> (r: bool)
    ensures
        r == lex_lt(a@, b@),
{
    let x = chars_of(a);
    let y = chars_of(b);
    let mut i: usize = 0;
    assert(x@.subrange(0, x.len() as int) =~= x@);
    assert(y@.subrange(0, y.len() as int) =~= y@);
    while i < x.len() && i < y.len() && x[i] == y[i]
        invariant
            i <= x.len(),
            i <= y.len(),
            x@.subrange(0, i as int) == y@.subrange(0, i as int),
            lex_lt(x@, y@) == lex_lt(x@.subrange(i as int, x.len() as int), y@.subrange(
                i as int,
                y.len() as int,
            )),
        decreases x.len() - i,
    {
        assert(x@.subrange(i as int, x.len() as int).drop_first() =~= x@.subrange(
            i + 1,
            x.len() as int,
        ));
        assert(y@.subrange(i as int, y.len() as int).drop_first() =~= y@.subrange(
            i + 1,
            y.len() as int,
        ));
        assert(x@.subrange(0, i + 1) =~= x@.subrange(0, i as int).push(x[i as int]));
        assert(y@.subrange(0, i + 1) =~= y@.subrange(0, i as int).push(y[i as int]));
        i = i + 1;
    }
    assert(x@.subrange(0, x.len() as int) =~= x@);
    assert(y@.subrange(0, y.len() as int) =~= y@);
    if i == x.len() {
        i < y.len()
    } else if i == y.len() {
        false
    } else {
        x[i] < y[i]
    }
}

/// Inserts `s` into the strictly sorted `v` unless it is already there.
pub fn insert_sorted(v: &mut Vec<String>, s: String)
    requires
        strictly_sorted(strs_of(old(v)@)),
    ensures
        strictly_sorted(strs_of(final(v)@)),
        strs_of(final(v)@).to_set() == strs_of(old(v)@).to_set().insert(s@),
{
    let ghost old_v = strs_of(v@);
    let mut i: usize = 0;
    while i < v.len() && lex_less(v[i].as_str(), s.as_str())
        invariant
            i <= v.len(),
            strs_of(v@) == old_v,
            strictly_sorted(old_v),
            forall|k: int| 0 <= k < i ==> lex_lt(#[trigger] old_v[k], s@),
        decreases v.len() - i,
    {
        i = i + 1;
    }
    if i < v.len() && v[i] == s {
        assert(old_v[i as int] == s@);
        assert(old_v.to_set().insert(s@) =~= old_v.to_set());
        return ;
    }
    if i < v.len() {
        proof {
            lemma_lex_trichotomy(old_v[i as int], s@);
        }
    }
    let ghost sv = s@;
    v.insert(i, s);
    let ghost nv = strs_of(v@);
    assert(nv =~= old_v.insert(i as int, sv));
    assert forall|a: int, b: int| 0 <= a < b < nv.len() implies lex_lt(
        #[trigger] nv[a],
        #[trigger] nv[b],
    ) by {
        if b == i {
            assert(nv[a] == old_v[a]);
        } else if a == i {
            assert(nv[b] == old_v[b - 1]);
            if b - 1 > i {
                lemma_lex_transitive(sv, old_v[i as int], old_v[b - 1]);
            }
        } else if a < i && b > i {
            assert(nv[a] == old_v[a] && nv[b] == old_v[b - 1]);
        } else if b < i {
            assert(nv[a] == old_v[a] && nv[b] == old_v[b]);
        } else {
            assert(nv[a] == old_v[a - 1] && nv[b] == old_v[b - 1]);
        }
    }
    assert(nv.to_set() =~= old_v.to_set().insert(sv)) by {
        assert forall|x: Seq<char>| nv.to_set().contains(x) <==> old_v.to_set().insert(sv).contains(x) by {
            if nv.contains(x) {
                let k = choose|k: int| 0 <= k < nv.len() && nv[k] == x;
                if k < i {
                    assert(old_v[k] == x);
                } else if k > i {
                    assert(old_v[k - 1] == x);
                }
            }
            if old_v.contains(x) {
                let k = choose|k: int| 0 <= k < old_v.len() && old_v[k] == x;
                if k < i {
                    assert(nv[k] == x);
                } else {
                    assert(nv[k + 1] == x);
                }
            }
            if x == sv {
                assert(nv[i as int] == x);
            }
        }
    }
}

/// The distinct strings of `v`, sorted.
pub fn sorted_unique(v: &Vec<String>) -> (r: Vec<String>)
    ensures
        strictly_sorted(strs_of(r@)),
        strs_of(r@).to_set() == strs_of(v@).to_set(),
{
    let mut out: Vec<String> = Vec::new();
    let mut i: usize = 0;
    assert(strs_of(out@).to_set() =~= strs_of(v@).take(0).to_set());
    while i < v.len()
        invariant
            i <= v.len(),
            strictly_sorted(strs_of(out@)),
            strs_of(out@).to_set() == strs_of(v@).take(i as int).to_set(),
        decreases v.len() - i,
    {
        insert_sorted(&mut out, v[i].clone());
        assert(strs_of(v@).take(i + 1) =~= strs_of(v@).take(i as int).push(v[i as int]@));
        proof {
            strs_of(v@).take(i as int).lemma_push_to_set_commute(v[i as int]@);
        }
        i = i + 1;
    }
    assert(strs_of(v@).take(v.len() as int) =~= strs_of(v@));
    out
}

/// `p` comes strictly before `q`: by the first string, then by the second.
pub open spec fn pair_lt(p: (Seq<char>, Seq<char>), q: (Seq<char>, Seq<char>)) -> bool {
    lex_lt(p.0, q.0) || (p.0 == q.0 && lex_lt(p.1, q.1))
}

/// `p` comes before `q` or equals it.
pub open spec fn pair_le(p: (Seq<char>, Seq<char>), q: (Seq<char>, Seq<char>)) -> bool {
    !pair_lt(q, p)
}

pub open spec fn pairs_of(v: Seq<(String, String)>) -> Seq<(Seq<char>, Seq<char>)> {
    v.map_values(|p: (String, String)| (p.0@, p.1@))
}

proof fn lemma_pair_facts(p: (Seq<char>, Seq<char>), q: (Seq<char>, Seq<char>), r: (Seq<char>, Seq<char>))
    ensures
        !pair_lt(p, p),
        p == q || pair_lt(p, q) || pair_lt(q, p),
        pair_lt(p, q) && pair_lt(q, r) ==> pair_lt(p, r),
        pair_lt(p, q) ==> !pair_lt(q, p),
{
    lemma_lex_irreflexive(p.0);
    lemma_lex_irreflexive(p.1);
    lemma_lex_trichotomy(p.0, q.0);
    lemma_lex_trichotomy(p.1, q.1);
    if lex_lt(p.0, q.0) && lex_lt(q.0, r.0) {
        lemma_lex_transitive(p.0, q.0, r.0);
    }
    if lex_lt(p.1, q.1) && lex_lt(q.1, r.1) {
        lemma_lex_transitive(p.1, q.1, r.1);
    }
    if lex_lt(p.0, q.0) && lex_lt(q.0, p.0) {
        lemma_lex_transitive(p.0, q.0, p.0);
    }
    if lex_lt(p.1, q.1) && lex_lt(q.1, p.1) {
        lemma_lex_transitive(p.1, q.1, p.1);
    }
    if p.0 == q.0 && p.1 == q.1 {
        assert(p == q);
    }
}

/// Ordering pairs by their first, then their second string is a total order.
pub proof fn lemma_pair_le_total()
    ensures
        total_ordering(|p: (Seq<char>, Seq<char>), q: (Seq<char>, Seq<char>)| pair_le(p, q)),
{
    assert forall|p: (Seq<char>, Seq<char>), q: (Seq<char>, Seq<char>), r: (Seq<char>, Seq<char>)|
        pair_le(p, q) && pair_le(q, r) implies pair_le(p, r) by {
        lemma_pair_facts(p, q, r);
        lemma_pair_facts(r, p, q);
        lemma_pair_facts(q, r, p);
    }
    assert forall|p: (Seq<char>, Seq<char>), q: (Seq<char>, Seq<char>)|
        pair_le(p, q) && pair_le(q, p) implies p == q by {
        lemma_pair_facts(p, q, p);
    }
    assert forall|p: (Seq<char>, Seq<char>), q: (Seq<char>, Seq<char>)|
        pair_le(p, q) || pair_le(q, p) by {
        lemma_pair_facts(p, q, p);
    }
    assert forall|p: (Seq<char>, Seq<char>)| pair_le(p, p) by {
        lemma_pair_facts(p, p, p);
    }
}

/// Whether the pair `p` comes strictly before `q`.
fn pair_less(p: &(String, String), q: &(String, String)) -> (r: bool)
    ensures
        r == pair_lt((p.0@, p.1@), (q.0@, q.1@)),
{
    if lex_less(p.0.as_str(), q.0.as_str()) {
        true
    } else {
        p.0 == q.0 && lex_less(p.1.as_str(), q.1.as_str())
    }
}

/// The pairs of `v` ordered by their first, then their second string; equal
/// pairs are all kept.
pub fn sort_pairs(v: &Vec<(String, String)>) -> (r: Vec<(String, String)>)
    ensures
        sorted_by(pairs_of(r@), |p: (Seq<char>, Seq<char>), q: (Seq<char>, Seq<char>)| pair_le(p, q)),
        pairs_of(r@).to_multiset() == pairs_of(v@).to_multiset(),
{
    let mut out: Vec<(String, String)> = Vec::new();
    let mut i: usize = 0;
    assert(pairs_of(out@) =~= pairs_of(v@).take(0));
    while i < v.len()
        invariant
            i <= v.len(),
            forall|a: int, b: int|
                0 <= a < b < out.len() ==> pair_le(
                    #[trigger] pairs_of(out@)[a],
                    #[trigger] pairs_of(out@)[b],
                ),
            pairs_of(out@).to_multiset() == pairs_of(v@).take(i as int).to_multiset(),
        decreases v.len() - i,
    {
        let x = (v[i].0.clone(), v[i].1.clone());
        let ghost xv = (x.0@, x.1@);
        assert(xv == pairs_of(v@)[i as int]);
        let ghost old_v = pairs_of(out@);
        let mut k: usize = 0;
        while k < out.len() && !pair_less(&x, &out[k])
            invariant
                k <= out.len(),
                old_v == pairs_of(out@),
                xv == (x.0@, x.1@),
                forall|a: int| 0 <= a < k ==> !pair_lt(xv, #[trigger] old_v[a]),
            decreases out.len() - k,
        {
            k = k + 1;
        }
        out.insert(k, x);
        let ghost nv = pairs_of(out@);
        assert(nv =~= old_v.insert(k as int, xv));
        assert forall|a: int, b: int| 0 <= a < b < nv.len() implies pair_le(
            #[trigger] nv[a],
            #[trigger] nv[b],
        ) by {
            if b == k {
                assert(nv[a] == old_v[a]);
            } else if a == k {
                assert(nv[b] == old_v[b - 1]);
                lemma_pair_facts(old_v[b - 1], xv, old_v[k as int]);
                if b - 1 > k {
                    lemma_pair_facts(old_v[b - 1], old_v[k as int], old_v[b - 1]);
                }
            } else if a < k && b > k {
                assert(nv[a] == old_v[a] && nv[b] == old_v[b - 1]);
            } else if b < k {
                assert(nv[a] == old_v[a] && nv[b] == old_v[b]);
            } else {
                assert(nv[a] == old_v[a - 1] && nv[b] == old_v[b - 1]);
            }
        }
        proof {
            to_multiset_insert(old_v, k as int, xv);
            assert(pairs_of(v@).take(i + 1) =~= pairs_of(v@).take(i as int).push(xv));
            vstd::seq_lib::to_multiset_build(pairs_of(v@).take(i as int), xv);
        }
        i = i + 1;
    }
    assert(pairs_of(v@).take(v.len() as int) =~= pairs_of(v@));
    out
}

} // verus!
