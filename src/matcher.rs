//! Target matcher: finds, in the logical lines of one Makefile, the
//! configuration symbols and composite objects that a build target depends on.
//!
//! Five line shapes are recognised (`T` is the target, `C` a container name made
//! of letters, digits, `_` and `-`, `D` a subdirectory):
//! 1. `obj-$(CONFIG_FOO) += … T …` gives the symbol `CONFIG_FOO`;
//! 2. `C-y`, `C-m` or `C-$(CONFIG_BAR)` `+= … T …` gives the container `C.o`
//!    (and `CONFIG_BAR` in the last form);
//! 3. `C-objs := … T …` or `C-objs += … T …` gives the container `C.o`;
//! 4. `C-objs-$(CONFIG_BAZ) := … T …` gives `C.o` and `CONFIG_BAZ`;
//! 5. with a subdirectory `D`, `obj-$(CONFIG_QUX) += … D/ …` gives `CONFIG_QUX`.
//!
//! Each shape is matched as a pattern anchored at a word boundary and searched
//! from the left of the line: the leftmost start that matches wins, and at that
//! start the longest container name that lets the rest match.  The target must
//! stand between non-identifier characters (or the ends of the line).
use vstd::prelude::*;
use crate::text::{is_space, is_ident_char, char_is_space, char_is_ident, seqs_of};

verus! {

/// `s[i]` exists and is an identifier character.
pub open spec fn word_at(s: Seq<char>, i: int) -> bool {
    0 <= i < s.len() && is_ident_char(s[i])
}

/// A word boundary between `s[i - 1]` and `s[i]`.
pub open spec fn boundary(s: Seq<char>, i: int) -> bool {
    word_at(s, i - 1) != word_at(s, i)
}

/// `w` occurs in `s` starting at `i`.
pub open spec fn has_at(s: Seq<char>, i: int, w: Seq<char>) -> bool {
    0 <= i && i + w.len() <= s.len() && s.subrange(i, i + w.len()) == w
}

/// `t` occurs in `s` at `q` with no identifier character right before or after it.
pub open spec fn bounded_at(s: Seq<char>, t: Seq<char>, q: int) -> bool {
    has_at(s, q, t) && !word_at(s, q - 1) && !word_at(s, q + t.len())
}

/// `t` occurs bounded in `s` at some position from `k` on.
pub open spec fn occurs_from(s: Seq<char>, t: Seq<char>, k: int) -> bool {
    exists|q: int| k <= q && #[trigger] bounded_at(s, t, q)
}

/// Characters of a configuration symbol name: `[A-Z0-9_]`.
pub open spec fn is_sym_char(c: char) -> bool {
    ('A' <= c && c <= 'Z') || ('0' <= c && c <= '9') || c == '_'
}

/// Characters of a container name: `[A-Za-z0-9_-]`.
pub open spec fn is_name_char(c: char) -> bool {
    is_ident_char(c) || c == '-'
}

/// `CONFIG_` followed by at least one of `[A-Z0-9_]`.
pub open spec fn is_config_symbol(x: Seq<char>) -> bool {
    &&& x.len() > 7
    &&& x.take(7) == config_prefix()
    &&& forall|i: int| 0 <= i < x.len() ==> is_sym_char(#[trigger] x[i])
}

pub open spec fn config_prefix() -> Seq<char> {
    seq!['C', 'O', 'N', 'F', 'I', 'G', '_']
}

pub open spec fn lit_obj_dash() -> Seq<char> {
    seq!['o', 'b', 'j', '-']
}

pub open spec fn lit_config_ref() -> Seq<char> {
    seq!['$', '(', 'C', 'O', 'N', 'F', 'I', 'G', '_']
}

pub open spec fn lit_objs() -> Seq<char> {
    seq!['-', 'o', 'b', 'j', 's']
}

pub open spec fn lit_objs_dash() -> Seq<char> {
    seq!['-', 'o', 'b', 'j', 's', '-']
}

/// The end of the run of characters satisfying `f` that starts at `i`.
pub open spec fn run_end(s: Seq<char>, i: int, f: spec_fn(char) -> bool) -> int
    decreases s.len() - i,
{
    if 0 <= i < s.len() && f(s[i]) {
        run_end(s, i + 1, f)
    } else {
        i
    }
}

pub open spec fn sym_run_end(s: Seq<char>, i: int) -> int {
    run_end(s, i, |c: char| is_sym_char(c))
}

pub open spec fn name_run_end(s: Seq<char>, i: int) -> int {
    run_end(s, i, |c: char| is_name_char(c))
}

pub open spec fn space_run_end(s: Seq<char>, i: int) -> int {
    run_end(s, i, |c: char| is_space(c))
}

/// `$(CONFIG_…)` at `i`: the symbol and the position after the `)`.
pub open spec fn config_ref(s: Seq<char>, i: int) -> Option<(Seq<char>, int)> {
    if has_at(s, i, lit_config_ref()) {
        let j = sym_run_end(s, i + 2);
        if j > i + 9 && j < s.len() && s[j] == ')' {
            Some((s.subrange(i + 2, j), j + 1))
        } else {
            None
        }
    } else {
        None
    }
}

/// White space, then `=`, `+=` or (with `colon`) `:=`, at `i`: the position after `=`.
pub open spec fn assign_op(s: Seq<char>, i: int, colon: bool) -> Option<int> {
    let k = space_run_end(s, i);
    if k < s.len() && s[k] == '=' {
        Some(k + 1)
    } else if k + 1 < s.len() && (s[k] == '+' || (colon && s[k] == ':')) && s[k + 1] == '=' {
        Some(k + 2)
    } else {
        None
    }
}

/// After the operator ending at `e`: one white-space character, then the target
/// somewhere in the rest of the line.
pub open spec fn rhs_has(s: Seq<char>, e: int, t: Seq<char>) -> bool {
    0 <= e < s.len() && is_space(s[e]) && occurs_from(s, t, e + 1)
}

/// Shapes 1 and 5 at `p`: `obj-$(CONFIG_X)` assigning a text holding `t`.
pub open spec fn obj_rule_at(s: Seq<char>, t: Seq<char>, p: int, colon: bool) -> Option<
    Seq<char>,
> {
    if boundary(s, p) && has_at(s, p, lit_obj_dash()) {
        match config_ref(s, p + 4) {
            Some((name, j)) => match assign_op(s, j, colon) {
                Some(e) => if rhs_has(s, e, t) {
                    Some(name)
                } else {
                    None
                },
                None => None,
            },
            None => None,
        }
    } else {
        None
    }
}

/// Shape 2 with the container name `s[p..c]`: `None` if it does not match, else
/// the symbol of the `$(CONFIG_…)` form, if any.
pub open spec fn r2_ok(s: Seq<char>, t: Seq<char>, c: int) -> Option<Option<Seq<char>>> {
    if 0 <= c && c + 1 < s.len() && s[c] == '-' {
        if s[c + 1] == 'y' || s[c + 1] == 'm' {
            match assign_op(s, c + 2, true) {
                Some(e) => if rhs_has(s, e, t) {
                    Some(None)
                } else {
                    None
                },
                None => None,
            }
        } else {
            match config_ref(s, c + 1) {
                Some((name, k)) => match assign_op(s, k, true) {
                    Some(e) => if rhs_has(s, e, t) {
                        Some(Some(name))
                    } else {
                        None
                    },
                    None => None,
                },
                None => None,
            }
        }
    } else {
        None
    }
}

/// Shape 3 with the container name ending at `c`.
pub open spec fn r3_ok(s: Seq<char>, t: Seq<char>, c: int) -> bool {
    has_at(s, c, lit_objs()) && match assign_op(s, c + 5, true) {
        Some(e) => rhs_has(s, e, t),
        None => false,
    }
}

/// Shape 4 with the container name ending at `c`: its symbol.
pub open spec fn r4_ok(s: Seq<char>, t: Seq<char>, c: int) -> Option<Seq<char>> {
    if has_at(s, c, lit_objs_dash()) {
        match config_ref(s, c + 6) {
            Some((name, k)) => match assign_op(s, k, true) {
                Some(e) => if rhs_has(s, e, t) {
                    Some(name)
                } else {
                    None
                },
                None => None,
            },
            None => None,
        }
    } else {
        None
    }
}

/// Shape 2 at `p`, trying container names `s[p..c]` from the longest down.
pub open spec fn r2_try(s: Seq<char>, t: Seq<char>, p: int, c: int) -> Option<
    (Seq<char>, Option<Seq<char>>),
>
    decreases c - p,
{
    if c <= p {
        None
    } else {
        match r2_ok(s, t, c) {
            Some(sym) => Some((s.subrange(p, c), sym)),
            None => r2_try(s, t, p, c - 1),
        }
    }
}

pub open spec fn r3_try(s: Seq<char>, t: Seq<char>, p: int, c: int) -> Option<Seq<char>>
    decreases c - p,
{
    if c <= p {
        None
    } else if r3_ok(s, t, c) {
        Some(s.subrange(p, c))
    } else {
        r3_try(s, t, p, c - 1)
    }
}

pub open spec fn r4_try(s: Seq<char>, t: Seq<char>, p: int, c: int) -> Option<
    (Seq<char>, Seq<char>),
>
    decreases c - p,
{
    if c <= p {
        None
    } else {
        match r4_ok(s, t, c) {
            Some(sym) => Some((s.subrange(p, c), sym)),
            None => r4_try(s, t, p, c - 1),
        }
    }
}

/// Shape 2 at `p`.
pub open spec fn r2_at(s: Seq<char>, t: Seq<char>, p: int) -> Option<(Seq<char>, Option<Seq<char>>)> {
    if boundary(s, p) {
        r2_try(s, t, p, name_run_end(s, p))
    } else {
        None
    }
}

/// Shape 3 at `p`.
pub open spec fn r3_at(s: Seq<char>, t: Seq<char>, p: int) -> Option<Seq<char>> {
    if boundary(s, p) {
        r3_try(s, t, p, name_run_end(s, p))
    } else {
        None
    }
}

/// Shape 4 at `p`.
pub open spec fn r4_at(s: Seq<char>, t: Seq<char>, p: int) -> Option<(Seq<char>, Seq<char>)> {
    if boundary(s, p) {
        r4_try(s, t, p, name_run_end(s, p))
    } else {
        None
    }
}

/// The leftmost match of shape 1 (or 5, with `colon`) from `p` on.
pub open spec fn first_obj(s: Seq<char>, t: Seq<char>, p: int, colon: bool) -> Option<Seq<char>>
    decreases s.len() - p,
{
    if p < 0 || p >= s.len() {
        None
    } else {
        match obj_rule_at(s, t, p, colon) {
            Some(x) => Some(x),
            None => first_obj(s, t, p + 1, colon),
        }
    }
}

pub open spec fn first_r2(s: Seq<char>, t: Seq<char>, p: int) -> Option<
    (Seq<char>, Option<Seq<char>>),
>
    decreases s.len() - p,
{
    if p < 0 || p >= s.len() {
        None
    } else {
        match r2_at(s, t, p) {
            Some(x) => Some(x),
            None => first_r2(s, t, p + 1),
        }
    }
}

pub open spec fn first_r3(s: Seq<char>, t: Seq<char>, p: int) -> Option<Seq<char>>
    decreases s.len() - p,
{
    if p < 0 || p >= s.len() {
        None
    } else {
        match r3_at(s, t, p) {
            Some(x) => Some(x),
            None => first_r3(s, t, p + 1),
        }
    }
}

pub open spec fn first_r4(s: Seq<char>, t: Seq<char>, p: int) -> Option<(Seq<char>, Seq<char>)>
    decreases s.len() - p,
{
    if p < 0 || p >= s.len() {
        None
    } else {
        match r4_at(s, t, p) {
            Some(x) => Some(x),
            None => first_r4(s, t, p + 1),
        }
    }
}

pub open spec fn opt_seq<A>(o: Option<A>) -> Seq<A> {
    match o {
        Some(x) => seq![x],
        None => Seq::empty(),
    }
}

/// The directory-gate target `D/`.
pub open spec fn gate_target(d: Seq<char>) -> Seq<char> {
    d.push('/')
}

/// `C.o`
pub open spec fn object_name(c: Seq<char>) -> Seq<char> {
    c + seq!['.', 'o']
}

pub open spec fn pair_first<A, B>(o: Option<(A, B)>) -> Option<A> {
    match o {
        Some((a, _)) => Some(a),
        None => None,
    }
}

pub open spec fn pair_second<A, B>(o: Option<(A, B)>) -> Option<B> {
    match o {
        Some((_, b)) => Some(b),
        None => None,
    }
}

pub open spec fn flatten_opt<A>(o: Option<Option<A>>) -> Option<A> {
    match o {
        Some(Some(a)) => Some(a),
        _ => None,
    }
}

pub open spec fn opt_object(o: Option<Seq<char>>) -> Option<Seq<char>> {
    match o {
        Some(c) => Some(object_name(c)),
        None => None,
    }
}

/// The symbols one line gives for target `t` and, when there is one, the
/// directory-gate target `g`, in rule order.
pub open spec fn line_symbols(s: Seq<char>, t: Seq<char>, g: Option<Seq<char>>) -> Seq<Seq<char>> {
    opt_seq(first_obj(s, t, 0, false)) + opt_seq(flatten_opt(pair_second(first_r2(s, t, 0))))
        + opt_seq(pair_second(first_r4(s, t, 0))) + match g {
        Some(gg) => opt_seq(first_obj(s, gg, 0, true)),
        None => Seq::empty(),
    }
}

/// The containers one line gives for target `t`, in rule order.
pub open spec fn line_containers(s: Seq<char>, t: Seq<char>) -> Seq<Seq<char>> {
    opt_seq(opt_object(pair_first(first_r2(s, t, 0)))) + opt_seq(opt_object(first_r3(s, t, 0)))
        + opt_seq(opt_object(pair_first(first_r4(s, t, 0))))
}

/// `acc` with `x` appended unless it is already there.
pub open spec fn insert_new(acc: Seq<Seq<char>>, x: Seq<char>) -> Seq<Seq<char>> {
    if acc.contains(x) {
        acc
    } else {
        acc.push(x)
    }
}

/// `acc` with each of `xs` inserted in turn.
pub open spec fn insert_all(acc: Seq<Seq<char>>, xs: Seq<Seq<char>>) -> Seq<Seq<char>>
    decreases xs.len(),
{
    if xs.len() == 0 {
        acc
    } else {
        insert_new(insert_all(acc, xs.drop_last()), xs.last())
    }
}

/// Symbols and containers found in `lines`, each once, in order of discovery.
pub open spec fn scan_lines_spec(lines: Seq<Seq<char>>, t: Seq<char>, g: Option<Seq<char>>) -> (
    Seq<Seq<char>>,
    Seq<Seq<char>>,
)
    decreases lines.len(),
{
    if lines.len() == 0 {
        (Seq::empty(), Seq::empty())
    } else {
        let (syms, conts) = scan_lines_spec(lines.drop_last(), t, g);
        (
            insert_all(syms, line_symbols(lines.last(), t, g)),
            insert_all(conts, line_containers(lines.last(), t)),
        )
    }
}

pub open spec fn gate_of(d: Option<Seq<char>>) -> Option<Seq<char>> {
    match d {
        Some(dd) => Some(gate_target(dd)),
        None => None,
    }
}

/// What a scan of `lines` for target `t` (and subdirectory `d`) finds; an
/// empty target finds nothing.
pub open spec fn scan_spec(lines: Seq<Seq<char>>, t: Seq<char>, d: Option<Seq<char>>) -> (
    Seq<Seq<char>>,
    Seq<Seq<char>>,
) {
    if t.len() == 0 {
        (Seq::empty(), Seq::empty())
    } else {
        scan_lines_spec(lines, t, gate_of(d))
    }
}

/// The character sequence an optional vector holds.
pub open spec fn opt_view(o: Option<Vec<char>>) -> Option<Seq<char>> {
    match o {
        Some(v) => Some(v@),
        None => None,
    }
}

/// `last` is the rightmost position where `t` occurs bounded in `s`, if any.
pub open spec fn is_last_occurrence(s: Seq<char>, t: Seq<char>, last: Option<usize>) -> bool {
    match last {
        Some(q) => bounded_at(s, t, q as int) && forall|q2: int| q < q2 ==> !#[trigger] bounded_at(s, t, q2),
        None => forall|q2: int| !#[trigger] bounded_at(s, t, q2),
    }
}

proof fn lemma_occurs_from_last(s: Seq<char>, t: Seq<char>, last: Option<usize>, k: int)
    requires
        is_last_occurrence(s, t, last),
    ensures
        occurs_from(s, t, k) <==> (last is Some && last->0 >= k),
{
    if occurs_from(s, t, k) {
        let q = choose|q: int| k <= q && #[trigger] bounded_at(s, t, q);
        assert(bounded_at(s, t, q));
    }
    if last is Some && last->0 >= k {
        assert(bounded_at(s, t, last->0 as int));
    }
}

fn char_is_sym(c: char) -> (r: bool)
    ensures
        r == is_sym_char(c),
{
    ('A' <= c && c <= 'Z') || ('0' <= c && c <= '9') || c == '_'
}

fn char_is_name(c: char) -> (r: bool)
    ensures
        r == is_name_char(c),
{
    char_is_ident(c) || c == '-'
}

fn word_at_exec(s: &Vec<char>, i: usize) -> (r: bool)
    ensures
        r == word_at(s@, i as int),
{
    i < s.len() && char_is_ident(s[i])
}

fn word_before_exec(s: &Vec<char>, i: usize) -> (r: bool)
    ensures
        r == word_at(s@, i - 1),
{
    i > 0 && i - 1 < s.len() && char_is_ident(s[i - 1])
}

fn boundary_exec(s: &Vec<char>, i: usize) -> (r: bool)
    ensures
        r == boundary(s@, i as int),
{
    word_before_exec(s, i) != word_at_exec(s, i)
}

/// Whether `w` occurs in `s` at `i`.
pub fn has_at_exec(s: &Vec<char>, i: usize, w: &Vec<char>) -> (r: bool)
    ensures
        r == has_at(s@, i as int, w@),
{
    if i > s.len() || w.len() > s.len() - i {
        return false;
    }
    let mut j: usize = 0;
    while j < w.len()
        invariant
            j <= w.len(),
            i + w.len() <= s.len(),
            forall|k: int| 0 <= k < j ==> s@[i + k] == w@[k],
        decreases w.len() - j,
    {
        if s[i + j] != w[j] {
            assert(s@.subrange(i as int, i + w.len())[j as int] != w@[j as int]);
            return false;
        }
        j = j + 1;
    }
    assert(s@.subrange(i as int, i + w.len()) =~= w@);
    true
}

/// `s[a..b]` as a new vector.
pub fn copy_range(s: &Vec<char>, a: usize, b: usize) -> (r: Vec<char>)
    requires
        a <= b <= s.len(),
    ensures
        r@ == s@.subrange(a as int, b as int),
{
    let mut out: Vec<char> = Vec::new();
    let mut i: usize = a;
    while i < b
        invariant
            a <= i <= b <= s.len(),
            out@ == s@.subrange(a as int, i as int),
        decreases b - i,
    {
        out.push(s[i]);
        i = i + 1;
        assert(out@ =~= s@.subrange(a as int, i as int));
    }
    out
}

fn sym_run_end_exec(s: &Vec<char>, i: usize) -> (r: usize)
    requires
        i <= s.len(),
    ensures
        r == sym_run_end(s@, i as int),
        i <= r <= s.len(),
{
    let mut j: usize = i;
    while j < s.len() && char_is_sym(s[j])
        invariant
            i <= j <= s.len(),
            sym_run_end(s@, i as int) == sym_run_end(s@, j as int),
        decreases s.len() - j,
    {
        j = j + 1;
    }
    j
}

fn name_run_end_exec(s: &Vec<char>, i: usize) -> (r: usize)
    requires
        i <= s.len(),
    ensures
        r == name_run_end(s@, i as int),
        i <= r <= s.len(),
{
    let mut j: usize = i;
    while j < s.len() && char_is_name(s[j])
        invariant
            i <= j <= s.len(),
            name_run_end(s@, i as int) == name_run_end(s@, j as int),
        decreases s.len() - j,
    {
        j = j + 1;
    }
    j
}

fn space_run_end_exec(s: &Vec<char>, i: usize) -> (r: usize)
    requires
        i <= s.len(),
    ensures
        r == space_run_end(s@, i as int),
        i <= r <= s.len(),
{
    let mut j: usize = i;
    while j < s.len() && char_is_space(s[j])
        invariant
            i <= j <= s.len(),
            space_run_end(s@, i as int) == space_run_end(s@, j as int),
        decreases s.len() - j,
    {
        j = j + 1;
    }
    j
}

/// `$(CONFIG_…)` at `i`: the end of the symbol.
fn config_ref_exec(s: &Vec<char>, i: usize) -> (r: Option<usize>)
    requires
        i <= s.len(),
    ensures
        r is Some ==> r->0 < s.len() && i + 9 < r->0 && config_ref(s@, i as int) == Some(
            (s@.subrange(i + 2, r->0 as int), r->0 + 1),
        ),
        r is None ==> config_ref(s@, i as int) is None,
{
    let lit = vec!['$', '(', 'C', 'O', 'N', 'F', 'I', 'G', '_'];
    if !has_at_exec(s, i, &lit) {
        return None;
    }
    let j = sym_run_end_exec(s, i + 2);
    if j > i + 9 && j < s.len() && s[j] == ')' {
        Some(j)
    } else {
        None
    }
}

fn assign_op_exec(s: &Vec<char>, i: usize, colon: bool) -> (r: Option<usize>)
    requires
        i <= s.len(),
    ensures
        r is Some ==> r->0 <= s.len() && assign_op(s@, i as int, colon) == Some(r->0 as int),
        r is None ==> assign_op(s@, i as int, colon) is None,
{
    let k = space_run_end_exec(s, i);
    if k < s.len() && s[k] == '=' {
        Some(k + 1)
    } else if k < s.len() && s.len() - k >= 2 && (s[k] == '+' || (colon && s[k] == ':')) && s[k
        + 1] == '=' {
        Some(k + 2)
    } else {
        None
    }
}

fn rhs_has_exec(s: &Vec<char>, e: usize, t: &Vec<char>, last: Option<usize>) -> (r: bool)
    requires
        e <= s.len(),
        is_last_occurrence(s@, t@, last),
    ensures
        r == rhs_has(s@, e as int, t@),
{
    proof {
        lemma_occurs_from_last(s@, t@, last, e + 1);
    }
    e < s.len() && char_is_space(s[e]) && match last {
        Some(q) => q > e,
        None => false,
    }
}

fn bounded_exec(s: &Vec<char>, t: &Vec<char>, q: usize) -> (r: bool)
    ensures
        r == bounded_at(s@, t@, q as int),
{
    if !has_at_exec(s, q, t) {
        return false;
    }
    let sl = s.len();
    assert(q + t@.len() <= sl);
    let e = q + t.len();
    !word_before_exec(s, q) && !word_at_exec(s, e)
}

/// The rightmost bounded occurrence of `t` in `s`.
fn last_occurrence(s: &Vec<char>, t: &Vec<char>) -> (r: Option<usize>)
    ensures
        is_last_occurrence(s@, t@, r),
{
    if t.len() > s.len() {
        assert forall|q2: int| !#[trigger] bounded_at(s@, t@, q2) by {}
        return None;
    }
    let mut n: usize = s.len() - t.len();
    loop
        invariant
            t.len() <= s.len(),
            n <= s.len() - t.len(),
            forall|q2: int| n < q2 ==> !#[trigger] bounded_at(s@, t@, q2),
        decreases n,
    {
        if bounded_exec(s, t, n) {
            return Some(n);
        }
        if n == 0 {
            assert forall|q2: int| !#[trigger] bounded_at(s@, t@, q2) by {
                if q2 == 0 {
                }
            }
            return None;
        }
        n = n - 1;
    }
}

fn obj_rule_at_exec(s: &Vec<char>, t: &Vec<char>, last: Option<usize>, p: usize, colon: bool) -> (r:
    Option<usize>)
    requires
        p < s.len(),
        is_last_occurrence(s@, t@, last),
    ensures
        r is Some ==> p + 6 <= r->0 <= s.len() && obj_rule_at(s@, t@, p as int, colon) == Some(
            s@.subrange(p + 6, r->0 as int),
        ),
        r is None ==> obj_rule_at(s@, t@, p as int, colon) is None,
{
    if !boundary_exec(s, p) {
        return None;
    }
    let lit = vec!['o', 'b', 'j', '-'];
    if !has_at_exec(s, p, &lit) {
        return None;
    }
    match config_ref_exec(s, p + 4) {
        None => None,
        Some(j) => match assign_op_exec(s, j + 1, colon) {
            None => None,
            Some(e) => if rhs_has_exec(s, e, t, last) {
                Some(j)
            } else {
                None
            },
        },
    }
}

fn first_obj_exec(s: &Vec<char>, t: &Vec<char>, last: Option<usize>, colon: bool) -> (r: Option<
    Vec<char>,
>)
    requires
        is_last_occurrence(s@, t@, last),
    ensures
        opt_view(r) == first_obj(s@, t@, 0, colon),
{
    let mut p: usize = 0;
    while p < s.len()
        invariant
            p <= s.len(),
            is_last_occurrence(s@, t@, last),
            first_obj(s@, t@, 0, colon) == first_obj(s@, t@, p as int, colon),
        decreases s.len() - p,
    {
        match obj_rule_at_exec(s, t, last, p, colon) {
            Some(j) => {
                return Some(copy_range(s, p + 6, j));
            },
            None => {},
        }
        p = p + 1;
    }
    None
}

fn r2_ok_exec(s: &Vec<char>, t: &Vec<char>, last: Option<usize>, c: usize) -> (r: Option<
    Option<usize>,
>)
    requires
        c <= s.len(),
        is_last_occurrence(s@, t@, last),
    ensures
        r is None ==> r2_ok(s@, t@, c as int) is None,
        r == Some(None::<usize>) ==> r2_ok(s@, t@, c as int) == Some(None::<Seq<char>>),
        r is Some && r->0 is Some ==> c + 3 <= r->0->0 <= s.len() && r2_ok(s@, t@, c as int) == Some(
            Some(s@.subrange(c + 3, r->0->0 as int)),
        ),
{
    if !(c < s.len() && s.len() - c >= 2 && s[c] == '-') {
        return None;
    }
    if s[c + 1] == 'y' || s[c + 1] == 'm' {
        match assign_op_exec(s, c + 2, true) {
            Some(e) => if rhs_has_exec(s, e, t, last) {
                Some(None)
            } else {
                None
            },
            None => None,
        }
    } else {
        match config_ref_exec(s, c + 1) {
            Some(j) => match assign_op_exec(s, j + 1, true) {
                Some(e) => if rhs_has_exec(s, e, t, last) {
                    Some(Some(j))
                } else {
                    None
                },
                None => None,
            },
            None => None,
        }
    }
}

fn r3_ok_exec(s: &Vec<char>, t: &Vec<char>, last: Option<usize>, c: usize) -> (r: bool)
    requires
        c <= s.len(),
        is_last_occurrence(s@, t@, last),
    ensures
        r == r3_ok(s@, t@, c as int),
{
    let lit = vec!['-', 'o', 'b', 'j', 's'];
    if !has_at_exec(s, c, &lit) {
        return false;
    }
    match assign_op_exec(s, c + 5, true) {
        Some(e) => rhs_has_exec(s, e, t, last),
        None => false,
    }
}

fn r4_ok_exec(s: &Vec<char>, t: &Vec<char>, last: Option<usize>, c: usize) -> (r: Option<usize>)
    requires
        c <= s.len(),
        is_last_occurrence(s@, t@, last),
    ensures
        r is None ==> r4_ok(s@, t@, c as int) is None,
        r is Some ==> c + 8 <= r->0 <= s.len() && r4_ok(s@, t@, c as int) == Some(
            s@.subrange(c + 8, r->0 as int),
        ),
{
    let lit = vec!['-', 'o', 'b', 'j', 's', '-'];
    if !has_at_exec(s, c, &lit) {
        return None;
    }
    match config_ref_exec(s, c + 6) {
        Some(j) => match assign_op_exec(s, j + 1, true) {
            Some(e) => if rhs_has_exec(s, e, t, last) {
                Some(j)
            } else {
                None
            },
            None => None,
        },
        None => None,
    }
}

fn r2_at_exec(s: &Vec<char>, t: &Vec<char>, last: Option<usize>, p: usize) -> (r: Option<
    (usize, Option<usize>),
>)
    requires
        p < s.len(),
        is_last_occurrence(s@, t@, last),
    ensures
        match r {
            None => r2_at(s@, t@, p as int) is None,
            Some((c, None)) => p < c <= s.len() && r2_at(s@, t@, p as int) == Some(
                (s@.subrange(p as int, c as int), None::<Seq<char>>),
            ),
            Some((c, Some(j))) => p < c && c + 3 <= j <= s.len() && r2_at(s@, t@, p as int) == Some(
                (s@.subrange(p as int, c as int), Some(s@.subrange(c + 3, j as int))),
            ),
        },
{
    if !boundary_exec(s, p) {
        return None;
    }
    let end = name_run_end_exec(s, p);
    let mut c = end;
    while c > p
        invariant
            p <= c <= end <= s.len(),
            end == name_run_end(s@, p as int),
            boundary(s@, p as int),
            is_last_occurrence(s@, t@, last),
            r2_try(s@, t@, p as int, end as int) == r2_try(s@, t@, p as int, c as int),
        decreases c - p,
    {
        match r2_ok_exec(s, t, last, c) {
            Some(sym) => {
                return Some((c, sym));
            },
            None => {},
        }
        c = c - 1;
    }
    None
}

fn r3_at_exec(s: &Vec<char>, t: &Vec<char>, last: Option<usize>, p: usize) -> (r: Option<usize>)
    requires
        p < s.len(),
        is_last_occurrence(s@, t@, last),
    ensures
        match r {
            None => r3_at(s@, t@, p as int) is None,
            Some(c) => p < c <= s.len() && r3_at(s@, t@, p as int) == Some(
                s@.subrange(p as int, c as int),
            ),
        },
{
    if !boundary_exec(s, p) {
        return None;
    }
    let end = name_run_end_exec(s, p);
    let mut c = end;
    while c > p
        invariant
            p <= c <= end <= s.len(),
            end == name_run_end(s@, p as int),
            boundary(s@, p as int),
            is_last_occurrence(s@, t@, last),
            r3_try(s@, t@, p as int, end as int) == r3_try(s@, t@, p as int, c as int),
        decreases c - p,
    {
        if r3_ok_exec(s, t, last, c) {
            return Some(c);
        }
        c = c - 1;
    }
    None
}

fn r4_at_exec(s: &Vec<char>, t: &Vec<char>, last: Option<usize>, p: usize) -> (r: Option<
    (usize, usize),
>)
    requires
        p < s.len(),
        is_last_occurrence(s@, t@, last),
    ensures
        match r {
            None => r4_at(s@, t@, p as int) is None,
            Some((c, j)) => p < c && c + 8 <= j <= s.len() && r4_at(s@, t@, p as int) == Some(
                (s@.subrange(p as int, c as int), s@.subrange(c + 8, j as int)),
            ),
        },
{
    if !boundary_exec(s, p) {
        return None;
    }
    let end = name_run_end_exec(s, p);
    let mut c = end;
    while c > p
        invariant
            p <= c <= end <= s.len(),
            end == name_run_end(s@, p as int),
            boundary(s@, p as int),
            is_last_occurrence(s@, t@, last),
            r4_try(s@, t@, p as int, end as int) == r4_try(s@, t@, p as int, c as int),
        decreases c - p,
    {
        match r4_ok_exec(s, t, last, c) {
            Some(j) => {
                return Some((c, j));
            },
            None => {},
        }
        c = c - 1;
    }
    None
}

/// The container `C.o` for the name `s[a..b]`.
fn object_of_range(s: &Vec<char>, a: usize, b: usize) -> (r: Vec<char>)
    requires
        a <= b <= s.len(),
    ensures
        r@ == object_name(s@.subrange(a as int, b as int)),
{
    let mut r = copy_range(s, a, b);
    r.push('.');
    r.push('o');
    r
}

/// The leftmost match of shape 2: its container and its symbol, if any.
fn first_r2_exec(s: &Vec<char>, t: &Vec<char>, last: Option<usize>) -> (r: (
    Option<Vec<char>>,
    Option<Vec<char>>,
))
    requires
        is_last_occurrence(s@, t@, last),
    ensures
        opt_view(r.0) == opt_object(pair_first(first_r2(s@, t@, 0))),
        opt_view(r.1) == flatten_opt(pair_second(first_r2(s@, t@, 0))),
{
    let mut p: usize = 0;
    while p < s.len()
        invariant
            p <= s.len(),
            is_last_occurrence(s@, t@, last),
            first_r2(s@, t@, 0) == first_r2(s@, t@, p as int),
        decreases s.len() - p,
    {
        match r2_at_exec(s, t, last, p) {
            Some((c, None)) => {
                return (Some(object_of_range(s, p, c)), None);
            },
            Some((c, Some(j))) => {
                return (Some(object_of_range(s, p, c)), Some(copy_range(s, c + 3, j)));
            },
            None => {},
        }
        p = p + 1;
    }
    (None, None)
}

fn first_r3_exec(s: &Vec<char>, t: &Vec<char>, last: Option<usize>) -> (r: Option<Vec<char>>)
    requires
        is_last_occurrence(s@, t@, last),
    ensures
        opt_view(r) == opt_object(first_r3(s@, t@, 0)),
{
    let mut p: usize = 0;
    while p < s.len()
        invariant
            p <= s.len(),
            is_last_occurrence(s@, t@, last),
            first_r3(s@, t@, 0) == first_r3(s@, t@, p as int),
        decreases s.len() - p,
    {
        match r3_at_exec(s, t, last, p) {
            Some(c) => {
                return Some(object_of_range(s, p, c));
            },
            None => {},
        }
        p = p + 1;
    }
    None
}

fn first_r4_exec(s: &Vec<char>, t: &Vec<char>, last: Option<usize>) -> (r: (
    Option<Vec<char>>,
    Option<Vec<char>>,
))
    requires
        is_last_occurrence(s@, t@, last),
    ensures
        opt_view(r.0) == opt_object(pair_first(first_r4(s@, t@, 0))),
        opt_view(r.1) == pair_second(first_r4(s@, t@, 0)),
{
    let mut p: usize = 0;
    while p < s.len()
        invariant
            p <= s.len(),
            is_last_occurrence(s@, t@, last),
            first_r4(s@, t@, 0) == first_r4(s@, t@, p as int),
        decreases s.len() - p,
    {
        match r4_at_exec(s, t, last, p) {
            Some((c, j)) => {
                return (Some(object_of_range(s, p, c)), Some(copy_range(s, c + 8, j)));
            },
            None => {},
        }
        p = p + 1;
    }
    (None, None)
}

fn push_opt(v: &mut Vec<Vec<char>>, o: Option<Vec<char>>)
    ensures
        seqs_of(final(v)@) == seqs_of(old(v)@) + opt_seq(opt_view(o)),
{
    match o {
        Some(x) => {
            let ghost before = seqs_of(v@);
            let ghost xv = x@;
            v.push(x);
            assert(seqs_of(v@) =~= before + seq![xv]);
        },
        None => {
            assert(seqs_of(v@) =~= seqs_of(v@) + Seq::<Seq<char>>::empty());
        },
    }
}

/// The symbols and containers one line gives, in rule order.
fn scan_line(s: &Vec<char>, t: &Vec<char>, gate: &Option<Vec<char>>) -> (r: (
    Vec<Vec<char>>,
    Vec<Vec<char>>,
))
    ensures
        seqs_of(r.0@) == line_symbols(s@, t@, opt_view(*gate)),
        seqs_of(r.1@) == line_containers(s@, t@),
{
    let last = last_occurrence(s, t);
    let mut syms: Vec<Vec<char>> = Vec::new();
    let mut conts: Vec<Vec<char>> = Vec::new();
    let s1 = first_obj_exec(s, t, last, false);
    let (c2, s2) = first_r2_exec(s, t, last);
    let c3 = first_r3_exec(s, t, last);
    let (c4, s4) = first_r4_exec(s, t, last);
    let s5 = match gate {
        Some(g) => {
            let glast = last_occurrence(s, g);
            first_obj_exec(s, g, glast, true)
        },
        None => None,
    };
    push_opt(&mut syms, s1);
    push_opt(&mut syms, s2);
    push_opt(&mut syms, s4);
    push_opt(&mut syms, s5);
    push_opt(&mut conts, c2);
    push_opt(&mut conts, c3);
    push_opt(&mut conts, c4);
    assert(seqs_of(syms@) =~= line_symbols(s@, t@, opt_view(*gate)));
    assert(seqs_of(conts@) =~= line_containers(s@, t@));
    (syms, conts)
}

/// Whether `a` and `b` hold the same characters.
pub fn same_chars(a: &Vec<char>, b: &Vec<char>) -> (r: bool)
    ensures
        r == (a@ == b@),
{
    if a.len() != b.len() {
        return false;
    }
    let mut i: usize = 0;
    while i < a.len()
        invariant
            i <= a.len(),
            a.len() == b.len(),
            forall|k: int| 0 <= k < i ==> a@[k] == b@[k],
        decreases a.len() - i,
    {
        if a[i] != b[i] {
            return false;
        }
        i = i + 1;
    }
    assert(a@ =~= b@);
    true
}

/// Whether `v` holds `x`.
pub fn contains_chars(v: &Vec<Vec<char>>, x: &Vec<char>) -> (r: bool)
    ensures
        r == seqs_of(v@).contains(x@),
{
    let mut i: usize = 0;
    while i < v.len()
        invariant
            i <= v.len(),
            forall|k: int| 0 <= k < i ==> seqs_of(v@)[k] != x@,
        decreases v.len() - i,
    {
        if same_chars(&v[i], x) {
            assert(seqs_of(v@)[i as int] == x@);
            return true;
        }
        i = i + 1;
    }
    false
}

/// Appends `x` to `acc` unless `acc` already holds it.
pub fn insert_new_exec(acc: &mut Vec<Vec<char>>, x: Vec<char>)
    ensures
        seqs_of(final(acc)@) == insert_new(seqs_of(old(acc)@), x@),
{
    if !contains_chars(acc, &x) {
        let ghost before = seqs_of(acc@);
        let ghost xv = x@;
        acc.push(x);
        assert(seqs_of(acc@) =~= before.push(xv));
    }
}

/// Inserts each of `xs` in turn into `acc`, skipping those already there.
pub fn insert_all_exec(acc: &mut Vec<Vec<char>>, xs: &Vec<Vec<char>>)
    ensures
        seqs_of(final(acc)@) == insert_all(seqs_of(old(acc)@), seqs_of(xs@)),
{
    let ghost start = seqs_of(acc@);
    let mut i: usize = 0;
    while i < xs.len()
        invariant
            i <= xs.len(),
            seqs_of(acc@) == insert_all(start, seqs_of(xs@).take(i as int)),
        decreases xs.len() - i,
    {
        let x = copy_range(&xs[i], 0, xs[i].len());
        assert(x@ =~= xs[i as int]@);
        insert_new_exec(acc, x);
        assert(seqs_of(xs@).take(i + 1).drop_last() =~= seqs_of(xs@).take(i as int));
        i = i + 1;
    }
    assert(seqs_of(xs@).take(xs.len() as int) =~= seqs_of(xs@));
}

proof fn lemma_no_rhs(s: Seq<char>, t: Seq<char>)
    requires
        !occurs_from(s, t, 0),
    ensures
        forall|e: int| !#[trigger] rhs_has(s, e, t),
{
    assert forall|e: int| !#[trigger] rhs_has(s, e, t) by {
        if rhs_has(s, e, t) {
            let q = choose|q: int| e + 1 <= q && #[trigger] bounded_at(s, t, q);
            assert(0 <= q && bounded_at(s, t, q));
        }
    }
}

proof fn lemma_tries_none(s: Seq<char>, t: Seq<char>, p: int, c: int)
    requires
        forall|e: int| !#[trigger] rhs_has(s, e, t),
    ensures
        r2_try(s, t, p, c) is None,
        r3_try(s, t, p, c) is None,
        r4_try(s, t, p, c) is None,
    decreases c - p,
{
    if c > p {
        lemma_tries_none(s, t, p, c - 1);
    }
}

proof fn lemma_firsts_none(s: Seq<char>, t: Seq<char>, p: int)
    requires
        forall|e: int| !#[trigger] rhs_has(s, e, t),
    ensures
        first_obj(s, t, p, false) is None,
        first_r2(s, t, p) is None,
        first_r3(s, t, p) is None,
        first_r4(s, t, p) is None,
    decreases s.len() - p,
{
    if 0 <= p < s.len() {
        lemma_tries_none(s, t, p, name_run_end(s, p));
        lemma_firsts_none(s, t, p + 1);
    }
}

/// With no bounded occurrence of the target in any line and no subdirectory,
/// a scan finds nothing: the early exit that skips matching is exact.
proof fn lemma_scan_without_target(lines: Seq<Seq<char>>, t: Seq<char>)
    requires
        forall|i: int| 0 <= i < lines.len() ==> !occurs_from(#[trigger] lines[i], t, 0),
    ensures
        scan_lines_spec(lines, t, None) == (Seq::<Seq<char>>::empty(), Seq::<Seq<char>>::empty()),
    decreases lines.len(),
{
    if lines.len() > 0 {
        let s = lines.last();
        assert(!occurs_from(lines[lines.len() - 1], t, 0));
        lemma_no_rhs(s, t);
        lemma_firsts_none(s, t, 0);
        lemma_scan_without_target(lines.drop_last(), t);
        assert(line_symbols(s, t, None) =~= Seq::<Seq<char>>::empty());
        assert(line_containers(s, t) =~= Seq::<Seq<char>>::empty());
    }
}

/// Whether some line holds a bounded occurrence of `t`.
fn target_mentioned(lines: &Vec<Vec<char>>, t: &Vec<char>) -> (r: bool)
    ensures
        !r ==> forall|i: int| 0 <= i < lines.len() ==> !occurs_from(#[trigger] seqs_of(lines@)[i], t@, 0),
{
    let mut i: usize = 0;
    while i < lines.len()
        invariant
            i <= lines.len(),
            forall|k: int| 0 <= k < i ==> !occurs_from(#[trigger] seqs_of(lines@)[k], t@, 0),
        decreases lines.len() - i,
    {
        let last = last_occurrence(&lines[i], t);
        proof {
            lemma_occurs_from_last(lines[i as int]@, t@, last, 0);
        }
        if last.is_some() {
            return true;
        }
        i = i + 1;
    }
    false
}

/// Scans the logical lines of one Makefile for `target`, and for the directory
/// gate of `subdir` when given.  The result holds the symbols and the
/// containers found, each once, in order of discovery.  When no line mentions
/// the target and there is no subdirectory, no rule is tried at all.
pub fn scan_makefile_for_targets(lines: &Vec<Vec<char>>, target: &Vec<char>, subdir: &Option<
    Vec<char>,
>) -> (r: (Vec<Vec<char>>, Vec<Vec<char>>))
    ensures
        (seqs_of(r.0@), seqs_of(r.1@)) == scan_spec(seqs_of(lines@), target@, opt_view(*subdir)),
{
    let mut syms: Vec<Vec<char>> = Vec::new();
    let mut conts: Vec<Vec<char>> = Vec::new();
    assert(seqs_of(syms@) =~= Seq::<Seq<char>>::empty());
    assert(seqs_of(conts@) =~= Seq::<Seq<char>>::empty());
    if target.len() == 0 {
        return (syms, conts);
    }
    let gate: Option<Vec<char>> = match subdir {
        Some(d) => {
            let mut g = copy_range(d, 0, d.len());
            g.push('/');
            assert(g@ =~= gate_target(d@));
            Some(g)
        },
        None => None,
    };
    if subdir.is_none() && !target_mentioned(lines, target) {
        proof {
            lemma_scan_without_target(seqs_of(lines@), target@);
        }
        return (syms, conts);
    }
    let mut i: usize = 0;
    while i < lines.len()
        invariant
            i <= lines.len(),
            opt_view(gate) == gate_of(opt_view(*subdir)),
            (seqs_of(syms@), seqs_of(conts@)) == scan_lines_spec(
                seqs_of(lines@).take(i as int),
                target@,
                opt_view(gate),
            ),
        decreases lines.len() - i,
    {
        let (ls, lc) = scan_line(&lines[i], target, &gate);
        insert_all_exec(&mut syms, &ls);
        insert_all_exec(&mut conts, &lc);
        assert(seqs_of(lines@).take(i + 1).drop_last() =~= seqs_of(lines@).take(i as int));
        i = i + 1;
    }
    assert(seqs_of(lines@).take(lines.len() as int) =~= seqs_of(lines@));
    (syms, conts)
}

proof fn lemma_run_end_bounds(s: Seq<char>, i: int, f: spec_fn(char) -> bool)
    requires
        0 <= i <= s.len(),
    ensures
        i <= run_end(s, i, f) <= s.len(),
        forall|k: int| i <= k < run_end(s, i, f) ==> f(#[trigger] s[k]),
    decreases s.len() - i,
{
    if i < s.len() && f(s[i]) {
        lemma_run_end_bounds(s, i + 1, f);
    }
}

/// The symbol of a `$(CONFIG_…)` reference is a configuration symbol.
pub proof fn lemma_config_ref_symbol(s: Seq<char>, i: int)
    requires
        config_ref(s, i) is Some,
    ensures
        is_config_symbol((config_ref(s, i)->0).0),
{
    let f = |c: char| is_sym_char(c);
    lemma_run_end_bounds(s, i + 2, f);
    let x = (config_ref(s, i)->0).0;
    let j = sym_run_end(s, i + 2);
    assert(x == s.subrange(i + 2, j));
    assert(s.subrange(i, i + 9) == lit_config_ref());
    assert(x.take(7) =~= config_prefix()) by {
        assert forall|k: int| 0 <= k < 7 implies x.take(7)[k] == config_prefix()[k] by {
            assert(x.take(7)[k] == s[i + 2 + k]);
            assert(s.subrange(i, i + 9)[k + 2] == s[i + 2 + k]);
        }
    }
    assert forall|k: int| 0 <= k < x.len() implies is_sym_char(#[trigger] x[k]) by {
        assert(x[k] == s[i + 2 + k]);
        assert(f(s[i + 2 + k]));
    }
}

/// `x` is `C.o` for some contiguous piece `C` of `s`.
pub open spec fn is_object_of_line(s: Seq<char>, x: Seq<char>) -> bool {
    exists|p: int, c: int| 0 <= p <= c <= s.len() && x == object_name(#[trigger] s.subrange(p, c))
}

/// Every symbol a line gives is a configuration symbol, and every container
/// is `C.o` for a piece `C` of the line.
pub proof fn lemma_line_results(s: Seq<char>, t: Seq<char>, g: Option<Seq<char>>)
    ensures
        forall|k: int|
            0 <= k < line_symbols(s, t, g).len() ==> is_config_symbol(
                #[trigger] line_symbols(s, t, g)[k],
            ),
        forall|k: int|
            0 <= k < line_containers(s, t).len() ==> is_object_of_line(
                s,
                #[trigger] line_containers(s, t)[k],
            ),
{
    lemma_first_obj_valid(s, t, 0, false);
    match g {
        Some(gg) => lemma_first_obj_valid(s, gg, 0, true),
        None => {},
    }
    lemma_first_r2_valid(s, t, 0);
    lemma_first_r3_valid(s, t, 0);
    lemma_first_r4_valid(s, t, 0);
    let a = opt_seq(first_obj(s, t, 0, false));
    let b = opt_seq(flatten_opt(pair_second(first_r2(s, t, 0))));
    let c = opt_seq(pair_second(first_r4(s, t, 0)));
    let d = match g {
        Some(gg) => opt_seq(first_obj(s, gg, 0, true)),
        None => Seq::empty(),
    };
    assert(line_symbols(s, t, g) == a + b + c + d);
    assert forall|k: int|
        0 <= k < line_symbols(s, t, g).len() implies is_config_symbol(
        #[trigger] line_symbols(s, t, g)[k],
    ) by {
        if k < a.len() {
        } else if k < a.len() + b.len() {
            assert(line_symbols(s, t, g)[k] == b[k - a.len()]);
        } else if k < a.len() + b.len() + c.len() {
            assert(line_symbols(s, t, g)[k] == c[k - a.len() - b.len()]);
        } else {
            assert(line_symbols(s, t, g)[k] == d[k - a.len() - b.len() - c.len()]);
        }
    }
    let x = opt_seq(opt_object(pair_first(first_r2(s, t, 0))));
    let y = opt_seq(opt_object(first_r3(s, t, 0)));
    let z = opt_seq(opt_object(pair_first(first_r4(s, t, 0))));
    assert(line_containers(s, t) == x + y + z);
    assert forall|k: int|
        0 <= k < line_containers(s, t).len() implies is_object_of_line(
        s,
        #[trigger] line_containers(s, t)[k],
    ) by {
        if k < x.len() {
        } else if k < x.len() + y.len() {
            assert(line_containers(s, t)[k] == y[k - x.len()]);
        } else {
            assert(line_containers(s, t)[k] == z[k - x.len() - y.len()]);
        }
    }
}

proof fn lemma_first_obj_valid(s: Seq<char>, t: Seq<char>, p: int, colon: bool)
    ensures
        first_obj(s, t, p, colon) is Some ==> is_config_symbol(first_obj(s, t, p, colon)->0),
    decreases s.len() - p,
{
    if 0 <= p < s.len() {
        if obj_rule_at(s, t, p, colon) is Some {
            lemma_config_ref_symbol(s, p + 4);
        } else {
            lemma_first_obj_valid(s, t, p + 1, colon);
        }
    }
}

proof fn lemma_r2_try_valid(s: Seq<char>, t: Seq<char>, p: int, c: int)
    requires
        0 <= p,
    ensures
        r2_try(s, t, p, c) is Some ==> {
            let (name, sym) = r2_try(s, t, p, c)->0;
            &&& is_object_of_line(s, object_name(name))
            &&& sym is Some ==> is_config_symbol(sym->0)
        },
    decreases c - p,
{
    if c > p {
        match r2_ok(s, t, c) {
            Some(sym) => {
                assert(c + 1 < s.len());
                let name = s.subrange(p, c);
                assert(is_object_of_line(s, object_name(name))) by {
                    assert(object_name(name) == object_name(s.subrange(p, c)));
                }
                if sym is Some {
                    lemma_config_ref_symbol(s, c + 1);
                }
            },
            None => lemma_r2_try_valid(s, t, p, c - 1),
        }
    }
}

proof fn lemma_r3_try_valid(s: Seq<char>, t: Seq<char>, p: int, c: int)
    requires
        0 <= p,
    ensures
        r3_try(s, t, p, c) is Some ==> is_object_of_line(s, object_name(r3_try(s, t, p, c)->0)),
    decreases c - p,
{
    if c > p {
        if r3_ok(s, t, c) {
            assert(object_name(s.subrange(p, c)) == object_name(s.subrange(p, c)));
        } else {
            lemma_r3_try_valid(s, t, p, c - 1);
        }
    }
}

proof fn lemma_r4_try_valid(s: Seq<char>, t: Seq<char>, p: int, c: int)
    requires
        0 <= p,
    ensures
        r4_try(s, t, p, c) is Some ==> {
            let (name, sym) = r4_try(s, t, p, c)->0;
            &&& is_object_of_line(s, object_name(name))
            &&& is_config_symbol(sym)
        },
    decreases c - p,
{
    if c > p {
        match r4_ok(s, t, c) {
            Some(sym) => {
                assert(object_name(s.subrange(p, c)) == object_name(s.subrange(p, c)));
                lemma_config_ref_symbol(s, c + 6);
            },
            None => lemma_r4_try_valid(s, t, p, c - 1),
        }
    }
}

proof fn lemma_first_r2_valid(s: Seq<char>, t: Seq<char>, p: int)
    ensures
        first_r2(s, t, p) is Some ==> {
            let (name, sym) = first_r2(s, t, p)->0;
            &&& is_object_of_line(s, object_name(name))
            &&& sym is Some ==> is_config_symbol(sym->0)
        },
    decreases s.len() - p,
{
    if 0 <= p < s.len() {
        if boundary(s, p) {
            lemma_r2_try_valid(s, t, p, name_run_end(s, p));
        }
        if r2_at(s, t, p) is None {
            lemma_first_r2_valid(s, t, p + 1);
        }
    }
}

proof fn lemma_first_r3_valid(s: Seq<char>, t: Seq<char>, p: int)
    ensures
        first_r3(s, t, p) is Some ==> is_object_of_line(s, object_name(first_r3(s, t, p)->0)),
    decreases s.len() - p,
{
    if 0 <= p < s.len() {
        if boundary(s, p) {
            lemma_r3_try_valid(s, t, p, name_run_end(s, p));
        }
        if r3_at(s, t, p) is None {
            lemma_first_r3_valid(s, t, p + 1);
        }
    }
}

proof fn lemma_first_r4_valid(s: Seq<char>, t: Seq<char>, p: int)
    ensures
        first_r4(s, t, p) is Some ==> {
            let (name, sym) = first_r4(s, t, p)->0;
            &&& is_object_of_line(s, object_name(name))
            &&& is_config_symbol(sym)
        },
    decreases s.len() - p,
{
    if 0 <= p < s.len() {
        if boundary(s, p) {
            lemma_r4_try_valid(s, t, p, name_run_end(s, p));
        }
        if r4_at(s, t, p) is None {
            lemma_first_r4_valid(s, t, p + 1);
        }
    }
}

} // verus!
