//! Relative source paths as sequences of components, and their display form.
use vstd::prelude::*;
use crate::text::{is_space, char_is_space, chars_of, seqs_of};
use crate::reader::{trim_end, trim_end_len};

verus! {

/// `s` without its leading white space.
pub open spec fn trim_start(s: Seq<char>) -> Seq<char>
    decreases s.len(),
{
    if s.len() > 0 && is_space(s[0]) {
        trim_start(s.drop_first())
    } else {
        s
    }
}

/// `s` without white space at either end.
pub open spec fn trim(s: Seq<char>) -> Seq<char> {
    trim_end(trim_start(s))
}

/// `done` with the component `cur` appended, unless it is empty or `.`.
pub open spec fn push_component(done: Seq<Seq<char>>, cur: Seq<char>) -> Seq<Seq<char>> {
    if cur.len() == 0 || cur == seq!['.'] {
        done
    } else {
        done.push(cur)
    }
}

/// Reading `s` from the left: the components closed by a `/` and the one still open.
pub open spec fn component_state(s: Seq<char>) -> (Seq<Seq<char>>, Seq<char>)
    decreases s.len(),
{
    if s.len() == 0 {
        (Seq::empty(), Seq::empty())
    } else {
        let (done, cur) = component_state(s.drop_last());
        if s.last() == '/' {
            (push_component(done, cur), Seq::empty())
        } else {
            (done, cur.push(s.last()))
        }
    }
}

/// The components of a relative path: the trimmed text split at `/`, without
/// empty and `.` components (so a leading `./` is dropped).
pub open spec fn path_components(rel: Seq<char>) -> Seq<Seq<char>> {
    push_component(component_state(trim(rel)).0, component_state(trim(rel)).1)
}

/// `base` extended by one component, with a `/` between unless `base` is empty
/// or already ends in `/`.
pub open spec fn join_one(base: Seq<char>, c: Seq<char>) -> Seq<char> {
    if base.len() == 0 || base.last() == '/' {
        base + c
    } else {
        base.push('/') + c
    }
}

/// `base` extended by the components `cs`, in order.
pub open spec fn join_path(base: Seq<char>, cs: Seq<Seq<char>>) -> Seq<char>
    decreases cs.len(),
{
    if cs.len() == 0 {
        base
    } else {
        join_one(join_path(base, cs.drop_last()), cs.last())
    }
}

/// The text after the last `/` of `s` (all of `s` without one).
pub open spec fn basename(s: Seq<char>) -> Seq<char>
    decreases s.len(),
{
    if s.len() == 0 {
        s
    } else if s.last() == '/' {
        Seq::empty()
    } else {
        basename(s.drop_last()).push(s.last())
    }
}

proof fn lemma_component_cur(s: Seq<char>)
    ensures
        component_state(s).1 == basename(s),
    decreases s.len(),
{
    if s.len() > 0 {
        lemma_component_cur(s.drop_last());
    }
}

proof fn lemma_trim_start(s: Seq<char>) -> (a: int)
    ensures
        0 <= a <= s.len(),
        trim_start(s) == s.subrange(a, s.len() as int),
        forall|k: int| 0 <= k < a ==> is_space(#[trigger] s[k]),
    decreases s.len(),
{
    if s.len() > 0 && is_space(s[0]) {
        let b = lemma_trim_start(s.drop_first());
        assert(s.drop_first().subrange(b, s.len() - 1) =~= s.subrange(b + 1, s.len() as int));
        assert forall|k: int| 0 <= k < b + 1 implies is_space(#[trigger] s[k]) by {
            if k > 0 {
                assert(s[k] == s.drop_first()[k - 1]);
            }
        }
        b + 1
    } else {
        assert(s.subrange(0, s.len() as int) =~= s);
        0
    }
}

proof fn lemma_basename_suffix(s: Seq<char>, a: int, k: int)
    requires
        0 <= a <= s.len(),
        a == 0 || (a <= k < s.len() && s[k] == '/'),
    ensures
        basename(s.subrange(a, s.len() as int)) == basename(s),
    decreases s.len(),
{
    let t = s.subrange(a, s.len() as int);
    if a == 0 {
        assert(t =~= s);
    } else if s.last() == '/' {
        assert(t.last() == '/');
    } else {
        assert(k < s.len() - 1);
        assert(t.drop_last() =~= s.drop_last().subrange(a, s.len() - 1));
        assert(s.drop_last()[k] == '/');
        lemma_basename_suffix(s.drop_last(), a, k);
        assert(t.last() == s.last());
    }
}

/// For a path ending in `.c` that names a directory or does not start with
/// white space, its last component is its basename.
pub proof fn lemma_last_component(rel: Seq<char>)
    requires
        rel.len() >= 2,
        rel[rel.len() - 2] == '.',
        rel[rel.len() - 1] == 'c',
        rel.contains('/') || !is_space(rel[0]),
    ensures
        path_components(rel).len() > 0,
        path_components(rel).last() == basename(rel),
{
    let n = rel.len() as int;
    let a = lemma_trim_start(rel);
    let ts = trim_start(rel);
    if a == n {
        assert(is_space(rel[n - 1]));
    }
    assert(ts.last() == 'c');
    assert(trim(rel) == ts);
    if rel.contains('/') {
        let k = choose|k: int| 0 <= k < n && rel[k] == '/';
        if k < a {
            assert(is_space(rel[k]));
        }
        lemma_basename_suffix(rel, a, k);
    } else {
        if a > 0 {
            assert(is_space(rel[0]));
        }
        lemma_basename_suffix(rel, a, 0);
    }
    lemma_component_cur(ts);
    assert(rel.drop_last().last() == '.');
    assert(basename(rel) == basename(rel.drop_last()).push('c'));
    assert(basename(rel.drop_last()) == basename(rel.drop_last().drop_last()).push('.'));
    assert(basename(rel).len() >= 2);
    assert(basename(rel) != seq!['.']);
}

fn trim_start_index(s: &Vec<char>) -> (a: usize)
    ensures
        a <= s.len(),
        trim_start(s@) == s@.subrange(a as int, s.len() as int),
{
    let mut a: usize = 0;
    assert(s@.subrange(0, s.len() as int) =~= s@);
    while a < s.len() && char_is_space(s[a])
        invariant
            a <= s.len(),
            trim_start(s@) == trim_start(s@.subrange(a as int, s.len() as int)),
        decreases s.len() - a,
    {
        assert(s@.subrange(a as int, s.len() as int).drop_first() =~= s@.subrange(
            a + 1,
            s.len() as int,
        ));
        a = a + 1;
    }
    a
}

/// The characters of `s` without white space at either end.
pub fn trim_chars(s: &Vec<char>) -> (r: Vec<char>)
    ensures
        r@ == trim(s@),
{
    let a = trim_start_index(s);
    let mut mid: Vec<char> = Vec::new();
    let mut i: usize = a;
    while i < s.len()
        invariant
            a <= i <= s.len(),
            mid@ == s@.subrange(a as int, i as int),
        decreases s.len() - i,
    {
        mid.push(s[i]);
        i = i + 1;
        assert(mid@ =~= s@.subrange(a as int, i as int));
    }
    let b = trim_end_len(&mid);
    let mut out: Vec<char> = Vec::new();
    let mut j: usize = 0;
    while j < b
        invariant
            j <= b <= mid.len(),
            out@ == mid@.take(j as int),
        decreases b - j,
    {
        out.push(mid[j]);
        j = j + 1;
        assert(out@ =~= mid@.take(j as int));
    }
    out
}

fn push_component_exec(done: &mut Vec<Vec<char>>, cur: Vec<char>)
    ensures
        seqs_of(final(done)@) == push_component(seqs_of(old(done)@), cur@),
{
    let dot = cur.len() == 1 && cur[0] == '.';
    if dot {
        assert(cur@ =~= seq!['.']);
    } else {
        assert(cur@ != seq!['.'] || cur.len() == 0) by {
            if cur@ == seq!['.'] {
                assert(cur@[0] == '.');
            }
        }
    }
    if cur.len() > 0 && !dot {
        let ghost before = seqs_of(done@);
        let ghost cv = cur@;
        done.push(cur);
        assert(seqs_of(done@) =~= before.push(cv));
    }
}

/// The components of a relative path.
pub fn path_components_exec(rel: &str) -> (r: Vec<Vec<char>>)
    ensures
        seqs_of(r@) == path_components(rel@),
{
    let raw = chars_of(rel);
    let s = trim_chars(&raw);
    let mut done: Vec<Vec<char>> = Vec::new();
    let mut cur: Vec<char> = Vec::new();
    let mut i: usize = 0;
    assert(seqs_of(done@) =~= Seq::<Seq<char>>::empty());
    while i < s.len()
        invariant
            i <= s.len(),
            (seqs_of(done@), cur@) == component_state(s@.take(i as int)),
        decreases s.len() - i,
    {
        assert(s@.take(i + 1).drop_last() =~= s@.take(i as int));
        if s[i] == '/' {
            let finished = cur;
            cur = Vec::new();
            push_component_exec(&mut done, finished);
        } else {
            cur.push(s[i]);
        }
        i = i + 1;
    }
    assert(s@.take(s.len() as int) =~= s@);
    push_component_exec(&mut done, cur);
    done
}

/// `base` extended by one component.
pub fn join_one_exec(base: &mut Vec<char>, c: &Vec<char>)
    ensures
        final(base)@ == join_one(old(base)@, c@),
{
    if base.len() > 0 && base[base.len() - 1] != '/' {
        base.push('/');
    }
    let ghost b0 = base@;
    let mut i: usize = 0;
    while i < c.len()
        invariant
            i <= c.len(),
            base@ == b0 + c@.take(i as int),
        decreases c.len() - i,
    {
        base.push(c[i]);
        i = i + 1;
        assert(base@ =~= b0 + c@.take(i as int));
    }
    assert(c@.take(c.len() as int) =~= c@);
}

/// `base` extended by the components `cs[a..b]`.
pub fn join_range(base: &Vec<char>, cs: &Vec<Vec<char>>, a: usize, b: usize) -> (r: Vec<char>)
    requires
        a <= b <= cs.len(),
    ensures
        r@ == join_path(base@, seqs_of(cs@).subrange(a as int, b as int)),
{
    let mut out: Vec<char> = Vec::new();
    let mut j: usize = 0;
    while j < base.len()
        invariant
            j <= base.len(),
            out@ == base@.take(j as int),
        decreases base.len() - j,
    {
        out.push(base[j]);
        j = j + 1;
        assert(out@ =~= base@.take(j as int));
    }
    assert(base@.take(base.len() as int) =~= base@);
    let mut i: usize = a;
    assert(seqs_of(cs@).subrange(a as int, a as int) =~= Seq::<Seq<char>>::empty());
    while i < b
        invariant
            a <= i <= b <= cs.len(),
            out@ == join_path(base@, seqs_of(cs@).subrange(a as int, i as int)),
        decreases b - i,
    {
        join_one_exec(&mut out, &cs[i]);
        assert(seqs_of(cs@).subrange(a as int, i + 1).drop_last() =~= seqs_of(cs@).subrange(
            a as int,
            i as int,
        ));
        i = i + 1;
    }
    out
}

} // verus!
