//! Makefile reader: splits Makefile text into logical lines, folding
//! backslash continuations and normalising white space.
use vstd::prelude::*;
use crate::text::{is_space, char_is_space, chars_of, string_of, seqs_of, strs_of};

verus! {

/// `s` without its trailing white space.
pub open spec fn trim_end(s: Seq<char>) -> Seq<char>
    decreases s.len(),
{
    if s.len() > 0 && is_space(s.last()) {
        trim_end(s.drop_last())
    } else {
        s
    }
}

/// Reading `text` from the left: the pieces already closed by a line feed,
/// and the piece still open.
pub open spec fn split_state(text: Seq<char>) -> (Seq<Seq<char>>, Seq<char>)
    decreases text.len(),
{
    if text.len() == 0 {
        (Seq::empty(), Seq::empty())
    } else {
        let (done, cur) = split_state(text.drop_last());
        if text.last() == '\n' {
            (done.push(cur), Seq::empty())
        } else {
            (done, cur.push(text.last()))
        }
    }
}

/// The pieces of `text` between line feeds, as `str::split('\n')` gives them.
pub open spec fn raw_lines(text: Seq<char>) -> Seq<Seq<char>> {
    split_state(text).0.push(split_state(text).1)
}

/// Folding raw lines from the top: the logical lines completed so far and the
/// text carried by lines that end in a backslash.  Each raw line loses its
/// trailing white space; one that then ends in `\` loses that backslash and
/// continues on the next line after a single space.
pub open spec fn fold_state(raw: Seq<Seq<char>>) -> (Seq<Seq<char>>, Seq<char>)
    decreases raw.len(),
{
    if raw.len() == 0 {
        (Seq::empty(), Seq::empty())
    } else {
        let (lines, buf) = fold_state(raw.drop_last());
        let t = trim_end(raw.last());
        if t.len() > 0 && t.last() == '\\' {
            (lines, buf + t.drop_last().push(' '))
        } else {
            (lines.push(buf + t), Seq::empty())
        }
    }
}

/// The continued lines of `raw`; text still carried at the end forms a last line.
pub open spec fn folded_lines(raw: Seq<Seq<char>>) -> Seq<Seq<char>> {
    if fold_state(raw).1.len() > 0 {
        fold_state(raw).0.push(fold_state(raw).1)
    } else {
        fold_state(raw).0
    }
}

/// Reading `s` from the left: the output so far, and whether white space was
/// seen after the last character kept.
pub open spec fn squeeze(s: Seq<char>) -> (Seq<char>, bool)
    decreases s.len(),
{
    if s.len() == 0 {
        (Seq::empty(), false)
    } else {
        let (out, pending) = squeeze(s.drop_last());
        let c = s.last();
        if is_space(c) {
            (out, out.len() > 0)
        } else if pending {
            (out.push(' ').push(c), false)
        } else {
            (out.push(c), false)
        }
    }
}

/// `s` with every maximal run of white space turned into one space and white
/// space at both ends removed.
pub open spec fn normalize(s: Seq<char>) -> Seq<char> {
    squeeze(s).0
}

/// The normalised forms of `lines` that are not empty, in order.
pub open spec fn nonempty_normalized(lines: Seq<Seq<char>>) -> Seq<Seq<char>>
    decreases lines.len(),
{
    if lines.len() == 0 {
        Seq::empty()
    } else {
        let rest = nonempty_normalized(lines.drop_last());
        let n = normalize(lines.last());
        if n.len() > 0 {
            rest.push(n)
        } else {
            rest
        }
    }
}

/// The logical lines of a Makefile's text.
pub open spec fn logical_lines(text: Seq<char>) -> Seq<Seq<char>> {
    nonempty_normalized(folded_lines(raw_lines(text)))
}

pub fn split_raw(text: &Vec<char>) -> (r: Vec<Vec<char>>)
    ensures
        seqs_of(r@) == raw_lines(text@),
{
    let mut done: Vec<Vec<char>> = Vec::new();
    let mut cur: Vec<char> = Vec::new();
    let mut i: usize = 0;
    while i < text.len()
        invariant
            i <= text.len(),
            (seqs_of(done@), cur@) == split_state(text@.take(i as int)),
        decreases text.len() - i,
    {
        let c = text[i];
        assert(text@.take(i + 1).drop_last() == text@.take(i as int));
        if c == '\n' {
            let finished = cur;
            cur = Vec::new();
            done.push(finished);
            assert(seqs_of(done@) =~= split_state(text@.take(i as int)).0.push(finished@));
        } else {
            cur.push(c);
        }
        i = i + 1;
    }
    assert(text@.take(text.len() as int) == text@);
    let ghost before = seqs_of(done@);
    done.push(cur);
    assert(seqs_of(done@) =~= before.push(cur@));
    done
}

pub fn trim_end_len(s: &Vec<char>) -> (k: usize)
    ensures
        k <= s.len(),
        trim_end(s@) == s@.take(k as int),
{
    let mut k: usize = s.len();
    assert(s@.take(k as int) == s@);
    while k > 0 && char_is_space(s[k - 1])
        invariant
            k <= s.len(),
            trim_end(s@) == trim_end(s@.take(k as int)),
        decreases k,
    {
        assert(s@.take(k as int).drop_last() == s@.take(k - 1));
        k = k - 1;
    }
    k
}

fn fold_raw(raw: &Vec<Vec<char>>) -> (r: Vec<Vec<char>>)
    ensures
        seqs_of(r@) == folded_lines(seqs_of(raw@)),
{
    let mut lines: Vec<Vec<char>> = Vec::new();
    let mut buf: Vec<char> = Vec::new();
    let mut i: usize = 0;
    while i < raw.len()
        invariant
            i <= raw.len(),
            (seqs_of(lines@), buf@) == fold_state(seqs_of(raw@).take(i as int)),
        decreases raw.len() - i,
    {
        let line = &raw[i];
        assert(seqs_of(raw@).take(i + 1).drop_last() == seqs_of(raw@).take(i as int));
        assert(seqs_of(raw@).take(i + 1).last() == line@);
        let k = trim_end_len(line);
        let ghost t = line@.take(k as int);
        if k > 0 && line[k - 1] == '\\' {
            let mut j: usize = 0;
            let ghost b0 = buf@;
            while j + 1 < k
                invariant
                    j + 1 <= k || j == 0,
                    k <= line.len(),
                    k > 0,
                    buf@ == b0 + t.take(j as int),
                    t == line@.take(k as int),
                decreases k - j,
            {
                buf.push(line[j]);
                j = j + 1;
                assert(buf@ == b0 + t.take(j as int));
            }
            assert(t.drop_last() == t.take(j as int));
            buf.push(' ');
        } else {
            let mut j: usize = 0;
            let ghost b0 = buf@;
            while j < k
                invariant
                    j <= k,
                    k <= line.len(),
                    buf@ == b0 + t.take(j as int),
                    t == line@.take(k as int),
                decreases k - j,
            {
                buf.push(line[j]);
                j = j + 1;
                assert(buf@ == b0 + t.take(j as int));
            }
            assert(t.take(k as int) == t);
            let finished = buf;
            buf = Vec::new();
            let ghost before = seqs_of(lines@);
            lines.push(finished);
            assert(seqs_of(lines@) =~= before.push(finished@));
        }
        i = i + 1;
    }
    assert(seqs_of(raw@).take(raw.len() as int) == seqs_of(raw@));
    if buf.len() > 0 {
        let ghost before = seqs_of(lines@);
        lines.push(buf);
        assert(seqs_of(lines@) =~= before.push(fold_state(seqs_of(raw@)).1));
    }
    lines
}

fn normalize_chars(s: &Vec<char>) -> (r: Vec<char>)
    ensures
        r@ == normalize(s@),
{
    let mut out: Vec<char> = Vec::new();
    let mut pending = false;
    let mut i: usize = 0;
    while i < s.len()
        invariant
            i <= s.len(),
            (out@, pending) == squeeze(s@.take(i as int)),
        decreases s.len() - i,
    {
        let c = s[i];
        assert(s@.take(i + 1).drop_last() == s@.take(i as int));
        if char_is_space(c) {
            pending = out.len() > 0;
        } else {
            if pending {
                out.push(' ');
            }
            out.push(c);
            pending = false;
        }
        i = i + 1;
    }
    assert(s@.take(s.len() as int) == s@);
    out
}

/// The logical lines of a Makefile's text, as character vectors.
pub fn logical_line_chars(text: &str) -> (r: Vec<Vec<char>>)
    ensures
        seqs_of(r@) == logical_lines(text@),
{
    let chars = chars_of(text);
    let raw = split_raw(&chars);
    let folded = fold_raw(&raw);
    let mut out: Vec<Vec<char>> = Vec::new();
    let mut i: usize = 0;
    while i < folded.len()
        invariant
            i <= folded.len(),
            seqs_of(out@) == nonempty_normalized(seqs_of(folded@).take(i as int)),
        decreases folded.len() - i,
    {
        assert(seqs_of(folded@).take(i + 1).drop_last() == seqs_of(folded@).take(i as int));
        let n = normalize_chars(&folded[i]);
        if n.len() > 0 {
            let ghost before = seqs_of(out@);
            out.push(n);
            assert(seqs_of(out@) =~= before.push(n@));
        }
        i = i + 1;
    }
    assert(seqs_of(folded@).take(folded.len() as int) == seqs_of(folded@));
    out
}

/// The logical lines of a Makefile's text: lines ending in a backslash are
/// joined to the next, white space is normalised, and empty lines are dropped.
pub fn read_makefile_lines(text: &str) -> (r: Vec<String>)
    ensures
        strs_of(r@) == logical_lines(text@),
{
    let lines = logical_line_chars(text);
    let mut out: Vec<String> = Vec::new();
    let mut i: usize = 0;
    while i < lines.len()
        invariant
            i <= lines.len(),
            strs_of(out@) == seqs_of(lines@).take(i as int),
        decreases lines.len() - i,
    {
        let s = string_of(&lines[i]);
        let ghost before = strs_of(out@);
        out.push(s);
        assert(strs_of(out@) =~= before.push(s@));
        assert(seqs_of(lines@).take(i + 1) =~= seqs_of(lines@).take(i as int).push(lines[i as int]@));
        i = i + 1;
    }
    assert(seqs_of(lines@).take(lines.len() as int) == seqs_of(lines@));
    out
}

} // verus!
