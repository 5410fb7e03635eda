//! Kernel configuration tracer: from a source file, a breadth-first walk over
//! (target, directory) pairs through the Makefiles of the file's directory and
//! its ancestors, collecting the `CONFIG_*` symbols the file depends on.
use vstd::prelude::*;
use vstd::seq_lib::*;
use vstd::set_lib::*;
use crate::text::{seqs_of, strs_of, chars_of, string_of, append_chars, copy_chars, copy_all, strings_of};
use crate::reader::{logical_lines, logical_line_chars};
use crate::matcher::{
    scan_makefile_for_targets, insert_new_exec, contains_chars, same_chars,
    scan_spec, scan_lines_spec, gate_of, insert_all, insert_new, line_symbols, line_containers,
    lemma_line_results, is_config_symbol, is_object_of_line, object_name, opt_view,
};
use crate::text::is_space;
use crate::paths::{basename, lemma_last_component, path_components, join_path, path_components_exec, join_range, join_one_exec};

verus! {

broadcast use vstd::seq_lib::group_seq_properties;

/// One inferred dependency: `src` needs `dst`, for the reason `via`.
#[derive(Debug)]
pub struct TraceEdge {
    pub src: String,
    pub dst: String,
    pub via: String,
}

/// What tracing one source file found.  `objects` and `symbols` hold each
/// element once, in order of discovery; `error` is set only when the file is
/// not in the source tree, and then the collections are empty.
#[derive(Debug)]
pub struct TraceResult {
    pub file: String,
    pub objects: Vec<String>,
    pub symbols: Vec<String>,
    pub edges: Vec<TraceEdge>,
    pub error: Option<String>,
}

pub open spec fn edge_view(e: TraceEdge) -> (Seq<char>, Seq<char>, Seq<char>) {
    (e.src@, e.dst@, e.via@)
}

pub open spec fn edges_of(v: Seq<TraceEdge>) -> Seq<(Seq<char>, Seq<char>, Seq<char>)> {
    v.map_values(|e: TraceEdge| edge_view(e))
}

pub struct TraceView {
    pub file: Seq<char>,
    pub objects: Seq<Seq<char>>,
    pub symbols: Seq<Seq<char>>,
    pub edges: Seq<(Seq<char>, Seq<char>, Seq<char>)>,
    pub error: Option<Seq<char>>,
}

impl View for TraceResult {
    type V = TraceView;

    open spec fn view(&self) -> TraceView {
        TraceView {
            file: self.file@,
            objects: strs_of(self.objects@),
            symbols: strs_of(self.symbols@),
            edges: edges_of(self.edges@),
            error: match self.error {
                Some(e) => Some(e@),
                None => None,
            },
        }
    }
}

/// The part of a kernel source tree that tracing reads: the source root as the
/// caller writes it, the files present (as path components below the root),
/// and the logical lines of Makefiles by directory.
pub struct TreeView {
    pub root: Seq<char>,
    pub files: Seq<Seq<Seq<char>>>,
    pub makefiles: Seq<(Seq<Seq<char>>, Seq<Seq<char>>)>,
}

/// The Makefile recorded last for `dir`, if any.
pub open spec fn makefile_at(mfs: Seq<(Seq<Seq<char>>, Seq<Seq<char>>)>, dir: Seq<Seq<char>>) -> Option<
    Seq<Seq<char>>,
>
    decreases mfs.len(),
{
    if mfs.len() == 0 {
        None
    } else if mfs.last().0 == dir {
        Some(mfs.last().1)
    } else {
        makefile_at(mfs.drop_last(), dir)
    }
}

/// `name` with its `.c` suffix replaced by `.o` (unchanged without that suffix).
pub open spec fn object_of_file(name: Seq<char>) -> Seq<char> {
    if name.len() >= 2 && name[name.len() - 2] == '.' && name[name.len() - 1] == 'c' {
        name.take(name.len() - 2) + seq!['.', 'o']
    } else {
        name
    }
}

/// The position of the last `.` in `s` before `end`.
pub open spec fn last_dot(s: Seq<char>, end: int) -> Option<int>
    decreases end,
{
    if end <= 0 || end > s.len() {
        None
    } else if s[end - 1] == '.' {
        Some(end - 1)
    } else {
        last_dot(s, end - 1)
    }
}

/// `name` with its extension, if it has one, replaced by `o` (as `Path::with_extension`).
pub open spec fn with_o_extension(name: Seq<char>) -> Seq<char> {
    match last_dot(name, name.len() as int) {
        Some(k) => if k > 0 {
            name.take(k) + seq!['.', 'o']
        } else {
            name + seq!['.', 'o']
        },
        None => name + seq!['.', 'o'],
    }
}

/// `x@label`
pub open spec fn at_label(x: Seq<char>, label: Seq<char>) -> Seq<char> {
    x.push('@') + label
}

/// `CONFIG:sym`
pub open spec fn config_label(sym: Seq<char>) -> Seq<char> {
    seq!['C', 'O', 'N', 'F', 'I', 'G', ':'] + sym
}

pub open spec fn symbol_via(hint: Option<Seq<char>>) -> Seq<char> {
    if hint is Some {
        "parent directory gate"@
    } else {
        "makefile rule"@
    }
}

pub open spec fn container_via(hint: Option<Seq<char>>) -> Seq<char> {
    if hint is Some {
        "parent container includes target"@
    } else {
        "container includes target"@
    }
}

/// What the walk needs of the tree and the file: the Makefile of each
/// directory from the root (depth 0) down to the file's directory, the display
/// label of each of those directories, and the label `obj@file_dir`.
pub struct TraceCtx {
    pub mk: Seq<Option<Seq<Seq<char>>>>,
    pub labels: Seq<Seq<char>>,
    pub obj_label: Seq<char>,
}

/// A state of the walk: the work queue of (target, directory depth, subdirectory
/// hint) and how far it has been processed, the pairs already expanded, and
/// what has been found.
pub struct TraceState {
    pub queue: Seq<(Seq<char>, int, Option<Seq<char>>)>,
    pub head: int,
    pub visited: Seq<(Seq<char>, int)>,
    pub objects: Seq<Seq<char>>,
    pub symbols: Seq<Seq<char>>,
    pub edges: Seq<(Seq<char>, Seq<char>, Seq<char>)>,
}

/// The edges from the file's object to each symbol in `syms`.
pub open spec fn symbol_edges(obj_label: Seq<char>, syms: Seq<Seq<char>>, hint: Option<Seq<char>>) -> Seq<
    (Seq<char>, Seq<char>, Seq<char>),
> {
    Seq::new(syms.len(), |i: int| (obj_label, config_label(syms[i]), symbol_via(hint)))
}

/// Records each container of `conts` not yet among the objects: as an object,
/// with an edge from `target`, and as a new target in the same directory.
pub open spec fn add_containers(
    ctx: TraceCtx,
    st: TraceState,
    conts: Seq<Seq<char>>,
    target: Seq<char>,
    k: int,
    hint: Option<Seq<char>>,
) -> TraceState
    decreases conts.len(),
{
    if conts.len() == 0 {
        st
    } else {
        let s0 = add_containers(ctx, st, conts.drop_last(), target, k, hint);
        let c = conts.last();
        if s0.objects.contains(c) {
            s0
        } else {
            TraceState {
                queue: s0.queue.push((c, k, None)),
                head: s0.head,
                visited: s0.visited,
                objects: s0.objects.push(c),
                symbols: s0.symbols,
                edges: s0.edges.push(
                    (at_label(target, ctx.labels[k]), at_label(c, ctx.labels[k]), container_via(hint)),
                ),
            }
        }
    }
}

/// The Makefile lines at depth `k`, if there is a Makefile there.
pub open spec fn lines_at(ctx: TraceCtx, k: int) -> Option<Seq<Seq<char>>> {
    if 0 <= k < ctx.mk.len() {
        ctx.mk[k]
    } else {
        None
    }
}

/// One step of the walk: expand the next queued pair unless it was expanded before.
pub open spec fn step(ctx: TraceCtx, st: TraceState) -> TraceState {
    if st.head < 0 || st.head >= st.queue.len() {
        st
    } else {
        let (target, k, hint) = st.queue[st.head];
        if st.visited.contains((target, k)) {
            TraceState { head: st.head + 1, ..st }
        } else {
            let s1 = TraceState { head: st.head + 1, visited: st.visited.push((target, k)), ..st };
            match lines_at(ctx, k) {
                None => s1,
                Some(lines) => {
                    let (syms, conts) = scan_spec(lines, target, hint);
                    let s2 = TraceState {
                        symbols: insert_all(s1.symbols, syms),
                        edges: s1.edges + symbol_edges(ctx.obj_label, syms, hint),
                        ..s1
                    };
                    add_containers(ctx, s2, conts, target, k, hint)
                },
            }
        }
    }
}

/// `n` steps of the walk.
pub open spec fn run(ctx: TraceCtx, st: TraceState, n: nat) -> TraceState
    decreases n,
{
    if n == 0 {
        st
    } else {
        step(ctx, run(ctx, st, (n - 1) as nat))
    }
}

/// The whole queue has been processed.
pub open spec fn done(st: TraceState) -> bool {
    st.head >= st.queue.len()
}

/// The state where the walk from `st` stops.
pub open spec fn walk(ctx: TraceCtx, st: TraceState) -> TraceState {
    run(ctx, st, choose|n: nat| done(#[trigger] run(ctx, st, n)))
}

pub open spec fn file_depth(comps: Seq<Seq<char>>) -> int {
    comps.len() - 1
}

/// The seed for the ancestor directory at depth `k`: the object's path relative
/// to it, and the name of its child on the way to the file.
pub open spec fn ancestor_seed(comps: Seq<Seq<char>>, stem_o: Seq<char>, k: int) -> (
    Seq<char>,
    int,
    Option<Seq<char>>,
) {
    (
        join_path(Seq::empty(), comps.subrange(k, file_depth(comps)).push(stem_o)),
        k,
        Some(comps[k]),
    )
}

/// Seeds for the ancestors strictly between the source root and the file's
/// directory, nearest first.
pub open spec fn ancestor_seeds(comps: Seq<Seq<char>>, stem_o: Seq<char>) -> Seq<
    (Seq<char>, int, Option<Seq<char>>),
> {
    let m = file_depth(comps);
    Seq::new(
        if m >= 1 {
            (m - 1) as nat
        } else {
            0
        },
        |i: int| ancestor_seed(comps, stem_o, m - 1 - i),
    )
}

pub open spec fn seeds(comps: Seq<Seq<char>>, obj: Seq<char>, stem_o: Seq<char>) -> Seq<
    (Seq<char>, int, Option<Seq<char>>),
> {
    let m = file_depth(comps);
    seq![(obj, m, None::<Seq<char>>)] + if stem_o != obj {
        seq![(stem_o, m, None::<Seq<char>>)]
    } else {
        Seq::empty()
    } + ancestor_seeds(comps, stem_o)
}

pub open spec fn initial_state(comps: Seq<Seq<char>>) -> TraceState {
    let obj = object_of_file(comps.last());
    TraceState {
        queue: seeds(comps, obj, with_o_extension(comps.last())),
        head: 0,
        visited: Seq::empty(),
        objects: seq![obj],
        symbols: Seq::empty(),
        edges: Seq::empty(),
    }
}

pub open spec fn trace_ctx(tree: TreeView, comps: Seq<Seq<char>>) -> TraceCtx {
    let m = file_depth(comps);
    let labels = Seq::new((m + 1) as nat, |k: int| join_path(tree.root, comps.take(k)));
    TraceCtx {
        mk: Seq::new((m + 1) as nat, |k: int| makefile_at(tree.makefiles, comps.take(k))),
        labels,
        obj_label: at_label(object_of_file(comps.last()), labels[m]),
    }
}

pub open spec fn not_found_message(tree: TreeView, comps: Seq<Seq<char>>) -> Seq<char> {
    "File not found in source tree: "@ + join_path(tree.root, comps)
}

/// The result of tracing `rel` in `tree`.
pub open spec fn trace_spec(rel: Seq<char>, tree: TreeView) -> TraceView {
    let comps = path_components(rel);
    if comps.len() == 0 || !tree.files.contains(comps) {
        TraceView {
            file: rel,
            objects: Seq::empty(),
            symbols: Seq::empty(),
            edges: Seq::empty(),
            error: Some(not_found_message(tree, comps)),
        }
    } else {
        let st = walk(trace_ctx(tree, comps), initial_state(comps));
        TraceView {
            file: rel,
            objects: st.objects,
            symbols: st.symbols,
            edges: st.edges,
            error: None,
        }
    }
}

proof fn lemma_run_stable(ctx: TraceCtx, st: TraceState, a: nat, j: nat)
    requires
        done(run(ctx, st, a)),
    ensures
        run(ctx, st, a + j) == run(ctx, st, a),
    decreases j,
{
    if j > 0 {
        lemma_run_stable(ctx, st, a, (j - 1) as nat);
        assert(run(ctx, st, a + j) == step(ctx, run(ctx, st, (a + j - 1) as nat)));
    }
}

/// Once the walk is done it stays where it is, so any number of steps that
/// ends the walk ends it in the same state.
pub proof fn lemma_walk_is_run(ctx: TraceCtx, st: TraceState, n: nat)
    requires
        done(run(ctx, st, n)),
    ensures
        walk(ctx, st) == run(ctx, st, n),
        done(walk(ctx, st)),
{
    let c = choose|c: nat| done(#[trigger] run(ctx, st, c));
    if c <= n {
        lemma_run_stable(ctx, st, c, (n - c) as nat);
    } else {
        lemma_run_stable(ctx, st, n, (c - n) as nat);
    }
}

pub proof fn lemma_insert_all(acc: Seq<Seq<char>>, xs: Seq<Seq<char>>)
    ensures
        forall|y: Seq<char>|
            #[trigger] insert_all(acc, xs).contains(y) <==> (acc.contains(y) || xs.contains(y)),
        acc.no_duplicates() ==> insert_all(acc, xs).no_duplicates(),
    decreases xs.len(),
{
    if xs.len() > 0 {
        lemma_insert_all(acc, xs.drop_last());
        let prev = insert_all(acc, xs.drop_last());
        let x = xs.last();
        assert forall|y: Seq<char>|
            #[trigger] insert_all(acc, xs).contains(y) <==> (acc.contains(y) || xs.contains(y)) by {
            if xs.contains(y) && y != x {
                let i = choose|i: int| 0 <= i < xs.len() && xs[i] == y;
                assert(xs.drop_last()[i] == y);
            }
            if xs.drop_last().contains(y) {
                let i = choose|i: int| 0 <= i < xs.drop_last().len() && xs.drop_last()[i] == y;
                assert(xs[i] == y);
            }
            if y == x {
                assert(xs[xs.len() - 1] == y);
                if !prev.contains(x) {
                    assert(prev.push(x)[prev.len() as int] == y);
                }
            }
            if prev.contains(y) && !prev.contains(x) {
                let i = choose|i: int| 0 <= i < prev.len() && prev[i] == y;
                assert(prev.push(x)[i] == y);
            }
        }
    }
}

/// `object_name(s[p..])` for every `p`.
pub open spec fn suffix_objects(s: Seq<char>) -> Seq<Seq<char>> {
    Seq::new((s.len() + 1) as nat, |p: int| object_name(s.subrange(p, s.len() as int)))
}

/// `object_name(C)` for every contiguous piece `C` of `s`.
pub open spec fn line_objects(s: Seq<char>) -> Seq<Seq<char>>
    decreases s.len(),
{
    if s.len() == 0 {
        suffix_objects(s)
    } else {
        line_objects(s.drop_last()) + suffix_objects(s)
    }
}

/// `object_name(C)` for every contiguous piece `C` of every line of `lines`.
pub open spec fn lines_objects(lines: Seq<Seq<char>>) -> Seq<Seq<char>>
    decreases lines.len(),
{
    if lines.len() == 0 {
        Seq::empty()
    } else {
        lines_objects(lines.drop_last()) + line_objects(lines.last())
    }
}

/// Every object a container rule of any of the Makefiles `mk` could name.
pub open spec fn tree_objects(mk: Seq<Option<Seq<Seq<char>>>>) -> Seq<Seq<char>>
    decreases mk.len(),
{
    if mk.len() == 0 {
        Seq::empty()
    } else {
        tree_objects(mk.drop_last()) + match mk.last() {
            Some(lines) => lines_objects(lines),
            None => Seq::empty(),
        }
    }
}

proof fn lemma_line_objects(s: Seq<char>, p: int, c: int)
    requires
        0 <= p <= c <= s.len(),
    ensures
        line_objects(s).contains(object_name(s.subrange(p, c))),
    decreases s.len(),
{
    if c == s.len() {
        assert(suffix_objects(s)[p] == object_name(s.subrange(p, c)));
        if s.len() > 0 {
            lemma_seq_concat_contains_all_elements(
                line_objects(s.drop_last()),
                suffix_objects(s),
                object_name(s.subrange(p, c)),
            );
        }
    } else {
        assert(s.drop_last().subrange(p, c) == s.subrange(p, c));
        lemma_line_objects(s.drop_last(), p, c);
        lemma_seq_concat_contains_all_elements(
            line_objects(s.drop_last()),
            suffix_objects(s),
            object_name(s.subrange(p, c)),
        );
    }
}

proof fn lemma_lines_objects(lines: Seq<Seq<char>>, i: int, x: Seq<char>)
    requires
        0 <= i < lines.len(),
        line_objects(lines[i]).contains(x),
    ensures
        lines_objects(lines).contains(x),
    decreases lines.len(),
{
    lemma_seq_concat_contains_all_elements(
        lines_objects(lines.drop_last()),
        line_objects(lines.last()),
        x,
    );
    if i < lines.len() - 1 {
        assert(lines.drop_last()[i] == lines[i]);
        lemma_lines_objects(lines.drop_last(), i, x);
    }
}

proof fn lemma_tree_objects(mk: Seq<Option<Seq<Seq<char>>>>, k: int, x: Seq<char>)
    requires
        0 <= k < mk.len(),
        mk[k] is Some,
        lines_objects(mk[k]->0).contains(x),
    ensures
        tree_objects(mk).contains(x),
    decreases mk.len(),
{
    let tail = match mk.last() {
        Some(lines) => lines_objects(lines),
        None => Seq::empty(),
    };
    lemma_seq_concat_contains_all_elements(tree_objects(mk.drop_last()), tail, x);
    if k < mk.len() - 1 {
        assert(mk.drop_last()[k] == mk[k]);
        lemma_tree_objects(mk.drop_last(), k, x);
    }
}

proof fn lemma_scan_lines_results(lines: Seq<Seq<char>>, t: Seq<char>, g: Option<Seq<char>>)
    ensures
        forall|y: Seq<char>|
            #[trigger] scan_lines_spec(lines, t, g).0.contains(y) ==> is_config_symbol(y),
        forall|y: Seq<char>|
            #[trigger] scan_lines_spec(lines, t, g).1.contains(y) ==> lines_objects(lines).contains(
                y,
            ),
        scan_lines_spec(lines, t, g).0.no_duplicates(),
        scan_lines_spec(lines, t, g).1.no_duplicates(),
    decreases lines.len(),
{
    if lines.len() > 0 {
        lemma_scan_lines_results(lines.drop_last(), t, g);
        let s = lines.last();
        lemma_line_results(s, t, g);
        let (ps, pc) = scan_lines_spec(lines.drop_last(), t, g);
        lemma_insert_all(ps, line_symbols(s, t, g));
        lemma_insert_all(pc, line_containers(s, t));
        assert forall|y: Seq<char>| #[trigger]
            scan_lines_spec(lines, t, g).0.contains(y) implies is_config_symbol(y) by {
            if line_symbols(s, t, g).contains(y) {
                let k = choose|k: int|
                    0 <= k < line_symbols(s, t, g).len() && line_symbols(s, t, g)[k] == y;
            }
        }
        assert forall|y: Seq<char>| #[trigger]
            scan_lines_spec(lines, t, g).1.contains(y) implies lines_objects(lines).contains(y) by {
            lemma_seq_concat_contains_all_elements(
                lines_objects(lines.drop_last()),
                line_objects(s),
                y,
            );
            if line_containers(s, t).contains(y) {
                let k = choose|k: int|
                    0 <= k < line_containers(s, t).len() && line_containers(s, t)[k] == y;
                assert(is_object_of_line(s, y));
                let (p, c) = choose|p: int, c: int|
                    0 <= p <= c <= s.len() && y == object_name(#[trigger] s.subrange(p, c));
                lemma_line_objects(s, p, c);
            }
        }
    }
}

/// Every symbol a scan finds is a configuration symbol, every container is
/// `C.o` for a piece `C` of one of the lines, and neither list repeats itself.
pub proof fn lemma_scan_results(lines: Seq<Seq<char>>, t: Seq<char>, d: Option<Seq<char>>)
    ensures
        forall|y: Seq<char>| #[trigger] scan_spec(lines, t, d).0.contains(y) ==> is_config_symbol(y),
        forall|y: Seq<char>|
            #[trigger] scan_spec(lines, t, d).1.contains(y) ==> lines_objects(lines).contains(y),
        scan_spec(lines, t, d).0.no_duplicates(),
        scan_spec(lines, t, d).1.no_duplicates(),
{
    lemma_scan_lines_results(lines, t, gate_of(d));
}

/// What holds of every state of the walk.
pub open spec fn walk_inv(ctx: TraceCtx, obj: Seq<char>, st: TraceState) -> bool {
    &&& ctx.labels.len() == ctx.mk.len()
    &&& 0 <= st.head <= st.queue.len()
    &&& forall|i: int| 0 <= i < st.queue.len() ==> 0 <= (#[trigger] st.queue[i]).1 < ctx.mk.len()
    &&& st.objects.len() >= 1
    &&& st.objects[0] == obj
    &&& st.objects.no_duplicates()
    &&& forall|i: int|
        1 <= i < st.objects.len() ==> tree_objects(ctx.mk).contains(#[trigger] st.objects[i])
    &&& forall|i: int| 0 <= i < st.symbols.len() ==> is_config_symbol(#[trigger] st.symbols[i])
    &&& st.symbols.no_duplicates()
}

proof fn lemma_add_containers_inv(
    ctx: TraceCtx,
    obj: Seq<char>,
    st: TraceState,
    conts: Seq<Seq<char>>,
    target: Seq<char>,
    k: int,
    hint: Option<Seq<char>>,
)
    requires
        walk_inv(ctx, obj, st),
        0 <= k < ctx.mk.len(),
        forall|y: Seq<char>| #[trigger] conts.contains(y) ==> tree_objects(ctx.mk).contains(y),
    ensures
        walk_inv(ctx, obj, add_containers(ctx, st, conts, target, k, hint)),
        add_containers(ctx, st, conts, target, k, hint).head == st.head,
        add_containers(ctx, st, conts, target, k, hint).objects.len() >= st.objects.len(),
        add_containers(ctx, st, conts, target, k, hint).queue.len() - add_containers(
            ctx,
            st,
            conts,
            target,
            k,
            hint,
        ).objects.len() == st.queue.len() - st.objects.len(),
    decreases conts.len(),
{
    if conts.len() > 0 {
        assert forall|y: Seq<char>| #[trigger] conts.drop_last().contains(y) implies tree_objects(
            ctx.mk,
        ).contains(y) by {
            let i = choose|i: int| 0 <= i < conts.drop_last().len() && conts.drop_last()[i] == y;
            assert(conts[i] == y);
            assert(conts.contains(y));
        }
        lemma_add_containers_inv(ctx, obj, st, conts.drop_last(), target, k, hint);
        let s0 = add_containers(ctx, st, conts.drop_last(), target, k, hint);
        let c = conts.last();
        assert(conts[conts.len() - 1] == c);
        assert(conts.contains(c));
        if !s0.objects.contains(c) {
            let s1 = add_containers(ctx, st, conts, target, k, hint);
            assert(s1.objects == s0.objects.push(c));
            assert forall|i: int| 0 <= i < s1.queue.len() implies 0 <= (
            #[trigger] s1.queue[i]).1 < ctx.mk.len() by {
                if i < s0.queue.len() {
                    assert(s1.queue[i] == s0.queue[i]);
                }
            }
            assert forall|i: int| 1 <= i < s1.objects.len() implies tree_objects(ctx.mk).contains(
                #[trigger] s1.objects[i],
            ) by {
                if i < s0.objects.len() {
                    assert(s1.objects[i] == s0.objects[i]);
                }
            }
        }
    }
}

proof fn lemma_step_inv(ctx: TraceCtx, obj: Seq<char>, st: TraceState)
    requires
        walk_inv(ctx, obj, st),
    ensures
        walk_inv(ctx, obj, step(ctx, st)),
        step(ctx, st).objects.len() >= st.objects.len(),
        step(ctx, st).queue.len() - step(ctx, st).objects.len() == st.queue.len()
            - st.objects.len(),
        !done(st) ==> step(ctx, st).head == st.head + 1,
{
    if !done(st) {
        let (target, k, hint) = st.queue[st.head];
        if !st.visited.contains((target, k)) {
            let s1 = TraceState { head: st.head + 1, visited: st.visited.push((target, k)), ..st };
            match lines_at(ctx, k) {
                None => {},
                Some(lines) => {
                    let (syms, conts) = scan_spec(lines, target, hint);
                    lemma_scan_results(lines, target, hint);
                    lemma_insert_all(s1.symbols, syms);
                    let s2 = TraceState {
                        symbols: insert_all(s1.symbols, syms),
                        edges: s1.edges + symbol_edges(ctx.obj_label, syms, hint),
                        ..s1
                    };
                    assert forall|i: int| 0 <= i < s2.symbols.len() implies is_config_symbol(
                        #[trigger] s2.symbols[i],
                    ) by {
                        assert(s2.symbols.contains(s2.symbols[i]));
                        if s1.symbols.contains(s2.symbols[i]) {
                            let j = choose|j: int|
                                0 <= j < s1.symbols.len() && s1.symbols[j] == s2.symbols[i];
                        }
                    }
                    assert forall|y: Seq<char>| #[trigger] conts.contains(y) implies tree_objects(
                        ctx.mk,
                    ).contains(y) by {
                        lemma_tree_objects(ctx.mk, k, y);
                    }
                    lemma_add_containers_inv(ctx, obj, s2, conts, target, k, hint);
                },
            }
        }
    }
}

proof fn lemma_run_inv(ctx: TraceCtx, obj: Seq<char>, st: TraceState, n: nat)
    requires
        walk_inv(ctx, obj, st),
    ensures
        walk_inv(ctx, obj, run(ctx, st, n)),
    decreases n,
{
    if n > 0 {
        lemma_run_inv(ctx, obj, st, (n - 1) as nat);
        lemma_step_inv(ctx, obj, run(ctx, st, (n - 1) as nat));
    }
}

proof fn lemma_unique_subset_len(a: Seq<Seq<char>>, b: Seq<Seq<char>>)
    requires
        a.no_duplicates(),
        forall|i: int| 0 <= i < a.len() ==> b.contains(#[trigger] a[i]),
    ensures
        a.len() <= b.len(),
{
    a.unique_seq_to_set();
    b.lemma_cardinality_of_set();
    seq_to_set_is_finite(b);
    assert forall|x: Seq<char>| a.to_set().contains(x) implies b.to_set().contains(x) by {
        let i = choose|i: int| 0 <= i < a.len() && a[i] == x;
    }
    lemma_len_subset(a.to_set(), b.to_set());
}

/// The walk never holds more objects than the Makefiles could name, plus the
/// file's own object: this bounds the number of steps.
proof fn lemma_objects_bound(ctx: TraceCtx, obj: Seq<char>, st: TraceState)
    requires
        walk_inv(ctx, obj, st),
    ensures
        st.objects.len() <= tree_objects(ctx.mk).len() + 1,
{
    let b = tree_objects(ctx.mk).push(obj);
    assert forall|i: int| 0 <= i < st.objects.len() implies b.contains(#[trigger] st.objects[i]) by {
        if i == 0 {
            assert(b[b.len() - 1] == obj);
        } else {
            let j = choose|j: int|
                0 <= j < tree_objects(ctx.mk).len() && tree_objects(ctx.mk)[j] == st.objects[i];
            assert(b[j] == st.objects[i]);
        }
    }
    lemma_unique_subset_len(st.objects, b);
}

proof fn lemma_initial_inv(tree: TreeView, comps: Seq<Seq<char>>)
    requires
        comps.len() >= 1,
    ensures
        walk_inv(trace_ctx(tree, comps), object_of_file(comps.last()), initial_state(comps)),
{
    let ctx = trace_ctx(tree, comps);
    let st = initial_state(comps);
    let obj = object_of_file(comps.last());
    let stem_o = with_o_extension(comps.last());
    let m = file_depth(comps);
    let first = seq![(obj, m, None::<Seq<char>>)] + if stem_o != obj {
        seq![(stem_o, m, None::<Seq<char>>)]
    } else {
        Seq::empty()
    };
    assert(st.queue == first + ancestor_seeds(comps, stem_o));
    assert forall|i: int| 0 <= i < st.queue.len() implies 0 <= (#[trigger] st.queue[i]).1
        < ctx.mk.len() by {
        if i >= first.len() {
            assert(st.queue[i] == ancestor_seeds(comps, stem_o)[i - first.len()]);
        } else {
            assert(st.queue[i] == first[i]);
        }
    }
    assert(st.objects.no_duplicates());
}

/// A kernel source tree as the tracer sees it: the source root, the source
/// files present, and the logical lines of the Makefiles it may read.
#[derive(Debug)]
pub struct SourceTree {
    root: Vec<char>,
    files: Vec<Vec<Vec<char>>>,
    makefiles: Vec<(Vec<Vec<char>>, Vec<Vec<char>>)>,
}

pub open spec fn makefiles_of(v: Seq<(Vec<Vec<char>>, Vec<Vec<char>>)>) -> Seq<
    (Seq<Seq<char>>, Seq<Seq<char>>),
> {
    v.map_values(|e: (Vec<Vec<char>>, Vec<Vec<char>>)| (seqs_of(e.0@), seqs_of(e.1@)))
}

pub open spec fn files_of(v: Seq<Vec<Vec<char>>>) -> Seq<Seq<Seq<char>>> {
    v.map_values(|f: Vec<Vec<char>>| seqs_of(f@))
}

impl View for SourceTree {
    type V = TreeView;

    closed spec fn view(&self) -> TreeView {
        TreeView {
            root: self.root@,
            files: files_of(self.files@),
            makefiles: makefiles_of(self.makefiles@),
        }
    }
}

/// Whether two component lists are equal.
fn same_components(a: &Vec<Vec<char>>, b: &Vec<Vec<char>>) -> (r: bool)
    ensures
        r == (seqs_of(a@) == seqs_of(b@)),
{
    if a.len() != b.len() {
        return false;
    }
    let mut i: usize = 0;
    while i < a.len()
        invariant
            i <= a.len(),
            a.len() == b.len(),
            forall|k: int| 0 <= k < i ==> seqs_of(a@)[k] == seqs_of(b@)[k],
        decreases a.len() - i,
    {
        if !same_chars(&a[i], &b[i]) {
            assert(seqs_of(a@)[i as int] != seqs_of(b@)[i as int]);
            return false;
        }
        i = i + 1;
    }
    assert(seqs_of(a@) =~= seqs_of(b@));
    true
}

/// The first `k` components.
fn prefix(comps: &Vec<Vec<char>>, k: usize) -> (r: Vec<Vec<char>>)
    requires
        k <= comps.len(),
    ensures
        seqs_of(r@) == seqs_of(comps@).take(k as int),
{
    let mut r: Vec<Vec<char>> = Vec::new();
    let mut i: usize = 0;
    while i < k
        invariant
            i <= k <= comps.len(),
            seqs_of(r@) == seqs_of(comps@).take(i as int),
        decreases k - i,
    {
        let c = copy_chars(&comps[i]);
        let ghost before = seqs_of(r@);
        r.push(c);
        assert(seqs_of(r@) =~= before.push(comps[i as int]@));
        assert(seqs_of(comps@).take(i + 1) =~= seqs_of(comps@).take(i as int).push(
            comps[i as int]@,
        ));
        i = i + 1;
    }
    r
}

impl SourceTree {
    /// An empty tree under the source root `root`.
    pub fn new(root: &str) -> (r: SourceTree)
        ensures
            r@ == (TreeView { root: root@, files: Seq::empty(), makefiles: Seq::empty() }),
    {
        let r = SourceTree { root: chars_of(root), files: Vec::new(), makefiles: Vec::new() };
        assert(files_of(r.files@) =~= Seq::<Seq<Seq<char>>>::empty());
        assert(makefiles_of(r.makefiles@) =~= Seq::<(Seq<Seq<char>>, Seq<Seq<char>>)>::empty());
        r
    }

    /// Records that the source file `rel` (relative to the root) is present.
    pub fn add_file(&mut self, rel: &str)
        ensures
            final(self)@ == (TreeView {
                files: old(self)@.files.push(path_components(rel@)),
                ..old(self)@
            }),
    {
        let comps = path_components_exec(rel);
        let ghost before = files_of(self.files@);
        let ghost cv = seqs_of(comps@);
        self.files.push(comps);
        assert(files_of(self.files@) =~= before.push(cv));
    }

    /// Records the Makefile of directory `dir` (relative to the root) with the
    /// text `text`; it takes the place of one recorded earlier for `dir`.
    pub fn add_makefile(&mut self, dir: &str, text: &str)
        ensures
            final(self)@ == (TreeView {
                makefiles: old(self)@.makefiles.push((path_components(dir@), logical_lines(text@))),
                ..old(self)@
            }),
    {
        let comps = path_components_exec(dir);
        let lines = logical_line_chars(text);
        let ghost before = makefiles_of(self.makefiles@);
        let ghost entry = (seqs_of(comps@), seqs_of(lines@));
        self.makefiles.push((comps, lines));
        assert(makefiles_of(self.makefiles@) =~= before.push(entry));
    }

    /// The directories, relative to the root, whose Makefiles a trace of `rel`
    /// reads: the root itself and each directory down to the file's.
    pub fn makefile_dirs(rel: &str) -> (r: Vec<String>)
        ensures
            path_components(rel@).len() == 0 ==> r@.len() == 0,
            path_components(rel@).len() > 0 ==> strs_of(r@) == Seq::new(
                path_components(rel@).len(),
                |k: int| join_path(Seq::empty(), path_components(rel@).take(k)),
            ),
    {
        let comps = path_components_exec(rel);
        let mut r: Vec<String> = Vec::new();
        let empty: Vec<char> = Vec::new();
        let mut k: usize = 0;
        while k < comps.len()
            invariant
                k <= comps.len(),
                empty@ == Seq::<char>::empty(),
                seqs_of(comps@) == path_components(rel@),
                strs_of(r@) == Seq::new(
                    k as nat,
                    |i: int| join_path(Seq::empty(), path_components(rel@).take(i)),
                ),
            decreases comps.len() - k,
        {
            let d = join_range(&empty, &comps, 0, k);
            assert(seqs_of(comps@).subrange(0, k as int) =~= seqs_of(comps@).take(k as int));
            let ds = string_of(&d);
            let ghost before = strs_of(r@);
            r.push(ds);
            assert(strs_of(r@) =~= before.push(ds@));
            k = k + 1;
            assert(strs_of(r@) =~= Seq::new(
                k as nat,
                |i: int| join_path(Seq::empty(), path_components(rel@).take(i)),
            ));
        }
        r
    }

    fn has_file(&self, comps: &Vec<Vec<char>>) -> (r: bool)
        ensures
            r == self@.files.contains(seqs_of(comps@)),
    {
        let mut i: usize = 0;
        while i < self.files.len()
            invariant
                i <= self.files.len(),
                forall|k: int| 0 <= k < i ==> files_of(self.files@)[k] != seqs_of(comps@),
            decreases self.files.len() - i,
        {
            if same_components(&self.files[i], comps) {
                assert(files_of(self.files@)[i as int] == seqs_of(comps@));
                return true;
            }
            i = i + 1;
        }
        false
    }

    fn makefile_lines_at(&self, dir: &Vec<Vec<char>>) -> (r: Option<Vec<Vec<char>>>)
        ensures
            lines_view(r) == makefile_at(self@.makefiles, seqs_of(dir@)),
    {
        let mut i: usize = self.makefiles.len();
        assert(makefiles_of(self.makefiles@).take(i as int) =~= makefiles_of(self.makefiles@));
        while i > 0
            invariant
                i <= self.makefiles.len(),
                makefile_at(makefiles_of(self.makefiles@), seqs_of(dir@)) == makefile_at(
                    makefiles_of(self.makefiles@).take(i as int),
                    seqs_of(dir@),
                ),
            decreases i,
        {
            let ghost pre = makefiles_of(self.makefiles@).take(i as int);
            assert(pre.drop_last() =~= makefiles_of(self.makefiles@).take(i - 1));
            assert(pre.last() == makefiles_of(self.makefiles@)[i - 1]);
            if same_components(&self.makefiles[i - 1].0, dir) {
                return Some(copy_all(&self.makefiles[i - 1].1));
            }
            i = i - 1;
        }
        None
    }
}

pub open spec fn lines_view(o: Option<Vec<Vec<char>>>) -> Option<Seq<Seq<char>>> {
    match o {
        Some(l) => Some(seqs_of(l@)),
        None => None,
    }
}

pub open spec fn queue_of(q: Seq<(Vec<char>, usize, Option<Vec<char>>)>) -> Seq<
    (Seq<char>, int, Option<Seq<char>>),
> {
    q.map_values(|it: (Vec<char>, usize, Option<Vec<char>>)| (it.0@, it.1 as int, opt_view(it.2)))
}

pub open spec fn visited_of(v: Seq<(Vec<char>, usize)>) -> Seq<(Seq<char>, int)> {
    v.map_values(|p: (Vec<char>, usize)| (p.0@, p.1 as int))
}

pub open spec fn state_of(
    queue: Seq<(Vec<char>, usize, Option<Vec<char>>)>,
    head: int,
    visited: Seq<(Vec<char>, usize)>,
    objects: Seq<Vec<char>>,
    symbols: Seq<Vec<char>>,
    edges: Seq<TraceEdge>,
) -> TraceState {
    TraceState {
        queue: queue_of(queue),
        head,
        visited: visited_of(visited),
        objects: seqs_of(objects),
        symbols: seqs_of(symbols),
        edges: edges_of(edges),
    }
}

fn object_of_file_exec(name: &Vec<char>) -> (r: Vec<char>)
    ensures
        r@ == object_of_file(name@),
{
    let n = name.len();
    if n >= 2 && name[n - 2] == '.' && name[n - 1] == 'c' {
        let mut r: Vec<char> = Vec::new();
        let mut i: usize = 0;
        while i < n - 2
            invariant
                n == name.len(),
                n >= 2,
                i <= n - 2,
                r@ == name@.take(i as int),
            decreases n - 2 - i,
        {
            r.push(name[i]);
            i = i + 1;
            assert(r@ =~= name@.take(i as int));
        }
        r.push('.');
        r.push('o');
        assert(r@ =~= object_of_file(name@));
        r
    } else {
        copy_chars(name)
    }
}

fn with_o_extension_exec(name: &Vec<char>) -> (r: Vec<char>)
    ensures
        r@ == with_o_extension(name@),
{
    let mut end: usize = name.len();
    let mut dot: Option<usize> = None;
    while end > 0
        invariant
            end <= name.len(),
            dot is None ==> last_dot(name@, name.len() as int) == last_dot(name@, end as int),
            dot is Some ==> last_dot(name@, name.len() as int) == Some(dot->0 as int) && dot->0
                < name.len(),
        decreases end,
    {
        if dot.is_none() && name[end - 1] == '.' {
            dot = Some(end - 1);
        }
        end = end - 1;
    }
    let keep = match dot {
        Some(k) => if k > 0 {
            k
        } else {
            name.len()
        },
        None => name.len(),
    };
    let mut r: Vec<char> = Vec::new();
    let mut i: usize = 0;
    while i < keep
        invariant
            keep <= name.len(),
            i <= keep,
            r@ == name@.take(i as int),
        decreases keep - i,
    {
        r.push(name[i]);
        i = i + 1;
        assert(r@ =~= name@.take(i as int));
    }
    r.push('.');
    r.push('o');
    assert(name@.take(name.len() as int) =~= name@);
    assert(r@ =~= with_o_extension(name@));
    r
}

fn at_label_exec(x: &Vec<char>, label: &Vec<char>) -> (r: Vec<char>)
    ensures
        r@ == at_label(x@, label@),
{
    let mut r = copy_chars(x);
    r.push('@');
    append_chars(&mut r, label);
    r
}

fn symbol_via_exec(hint: &Option<Vec<char>>) -> (r: String)
    ensures
        r@ == symbol_via(opt_view(*hint)),
{
    match hint {
        Some(_) => "parent directory gate".to_owned(),
        None => "makefile rule".to_owned(),
    }
}

fn container_via_exec(hint: &Option<Vec<char>>) -> (r: String)
    ensures
        r@ == container_via(opt_view(*hint)),
{
    match hint {
        Some(_) => "parent container includes target".to_owned(),
        None => "container includes target".to_owned(),
    }
}

fn was_visited(visited: &Vec<(Vec<char>, usize)>, t: &Vec<char>, k: usize) -> (r: bool)
    ensures
        r == visited_of(visited@).contains((t@, k as int)),
{
    let mut i: usize = 0;
    while i < visited.len()
        invariant
            i <= visited.len(),
            forall|j: int| 0 <= j < i ==> visited_of(visited@)[j] != (t@, k as int),
        decreases visited.len() - i,
    {
        if visited[i].1 == k && same_chars(&visited[i].0, t) {
            assert(visited_of(visited@)[i as int] == (t@, k as int));
            return true;
        }
        i = i + 1;
    }
    false
}

fn add_symbols(
    symbols: &mut Vec<Vec<char>>,
    edges: &mut Vec<TraceEdge>,
    syms: &Vec<Vec<char>>,
    obj_label: &Vec<char>,
    hint: &Option<Vec<char>>,
)
    ensures
        seqs_of(final(symbols)@) == insert_all(seqs_of(old(symbols)@), seqs_of(syms@)),
        edges_of(final(edges)@) == edges_of(old(edges)@) + symbol_edges(
            obj_label@,
            seqs_of(syms@),
            opt_view(*hint),
        ),
{
    let ghost s0 = seqs_of(symbols@);
    let ghost e0 = edges_of(edges@);
    let mut i: usize = 0;
    while i < syms.len()
        invariant
            i <= syms.len(),
            seqs_of(symbols@) == insert_all(s0, seqs_of(syms@).take(i as int)),
            edges_of(edges@) == e0 + symbol_edges(
                obj_label@,
                seqs_of(syms@).take(i as int),
                opt_view(*hint),
            ),
        decreases syms.len() - i,
    {
        let sym = copy_chars(&syms[i]);
        let mut dst: Vec<char> = vec!['C', 'O', 'N', 'F', 'I', 'G', ':'];
        append_chars(&mut dst, &sym);
        let e = TraceEdge {
            src: string_of(obj_label),
            dst: string_of(&dst),
            via: symbol_via_exec(hint),
        };
        let ghost ev = edge_view(e);
        let ghost before = edges_of(edges@);
        edges.push(e);
        assert(edges_of(edges@) =~= before.push(ev));
        insert_new_exec(symbols, sym);
        assert(seqs_of(syms@).take(i + 1).drop_last() =~= seqs_of(syms@).take(i as int));
        assert(symbol_edges(obj_label@, seqs_of(syms@).take(i + 1), opt_view(*hint)) =~= symbol_edges(
            obj_label@,
            seqs_of(syms@).take(i as int),
            opt_view(*hint),
        ).push(ev));
        i = i + 1;
    }
    assert(seqs_of(syms@).take(syms.len() as int) =~= seqs_of(syms@));
}

fn add_containers_exec(
    queue: &mut Vec<(Vec<char>, usize, Option<Vec<char>>)>,
    objects: &mut Vec<Vec<char>>,
    edges: &mut Vec<TraceEdge>,
    conts: &Vec<Vec<char>>,
    target: &Vec<char>,
    k: usize,
    label: &Vec<char>,
    hint: &Option<Vec<char>>,
    ctx: Ghost<TraceCtx>,
    head: Ghost<int>,
    visited: Ghost<Seq<(Vec<char>, usize)>>,
    symbols: Ghost<Seq<Vec<char>>>,
)
    requires
        0 <= k < ctx@.labels.len(),
        ctx@.labels[k as int] == label@,
    ensures
        state_of(final(queue)@, head@, visited@, final(objects)@, symbols@, final(edges)@)
            == add_containers(
            ctx@,
            state_of(old(queue)@, head@, visited@, old(objects)@, symbols@, old(edges)@),
            seqs_of(conts@),
            target@,
            k as int,
            opt_view(*hint),
        ),
{
    let ghost st0 = state_of(queue@, head@, visited@, objects@, symbols@, edges@);
    let mut i: usize = 0;
    while i < conts.len()
        invariant
            i <= conts.len(),
            0 <= k < ctx@.labels.len(),
            ctx@.labels[k as int] == label@,
            state_of(queue@, head@, visited@, objects@, symbols@, edges@) == add_containers(
                ctx@,
                st0,
                seqs_of(conts@).take(i as int),
                target@,
                k as int,
                opt_view(*hint),
            ),
        decreases conts.len() - i,
    {
        assert(seqs_of(conts@).take(i + 1).drop_last() =~= seqs_of(conts@).take(i as int));
        assert(seqs_of(conts@).take(i + 1).last() == conts[i as int]@);
        if !contains_chars(objects, &conts[i]) {
            let c = &conts[i];
            let e = TraceEdge {
                src: string_of(&at_label_exec(target, label)),
                dst: string_of(&at_label_exec(c, label)),
                via: container_via_exec(hint),
            };
            let ghost q0 = queue_of(queue@);
            let ghost o0 = seqs_of(objects@);
            let ghost e0 = edges_of(edges@);
            let ghost ev = edge_view(e);
            queue.push((copy_chars(c), k, None));
            objects.push(copy_chars(c));
            edges.push(e);
            assert(queue_of(queue@) =~= q0.push((c@, k as int, None::<Seq<char>>)));
            assert(seqs_of(objects@) =~= o0.push(c@));
            assert(edges_of(edges@) =~= e0.push(ev));
        }
        i = i + 1;
    }
    assert(seqs_of(conts@).take(conts.len() as int) =~= seqs_of(conts@));
}

/// Traces the source file `rel_file` (relative to the tree's root): the
/// configuration symbols that must be enabled for it to be built, the objects
/// it is part of, and the edges that explain each finding.  A file that is not
/// in the tree gives a result with an error and nothing else.
pub fn trace_kernel_config(rel_file: &str, tree: &SourceTree) -> (r: TraceResult)
    ensures
        r@ == trace_spec(rel_file@, tree@),
{
    let comps = path_components_exec(rel_file);
    let file = rel_file.to_owned();
    if comps.len() == 0 || !tree.has_file(&comps) {
        let mut msg = chars_of("File not found in source tree: ");
        let path = join_range(&tree.root, &comps, 0, comps.len());
        assert(seqs_of(comps@).subrange(0, comps.len() as int) =~= seqs_of(comps@));
        append_chars(&mut msg, &path);
        let r = TraceResult {
            file,
            objects: Vec::new(),
            symbols: Vec::new(),
            edges: Vec::new(),
            error: Some(string_of(&msg)),
        };
        assert(strs_of(r.objects@) =~= Seq::<Seq<char>>::empty());
        assert(strs_of(r.symbols@) =~= Seq::<Seq<char>>::empty());
        assert(edges_of(r.edges@) =~= Seq::<(Seq<char>, Seq<char>, Seq<char>)>::empty());
        return r;
    }
    let ghost cs = seqs_of(comps@);
    let ghost ctx = trace_ctx(tree@, cs);
    let m = comps.len() - 1;
    let obj = object_of_file_exec(&comps[m]);
    let stem_o = with_o_extension_exec(&comps[m]);
    assert(cs.last() == comps[m as int]@);
    let mut mk: Vec<Option<Vec<Vec<char>>>> = Vec::new();
    let mut labels: Vec<Vec<char>> = Vec::new();
    let mut k: usize = 0;
    while k <= m
        invariant
            k <= m + 1,
            m + 1 == comps.len(),
            cs == seqs_of(comps@),
            ctx == trace_ctx(tree@, cs),
            mk.len() == k,
            labels.len() == k,
            forall|i: int| 0 <= i < k ==> lines_view(#[trigger] mk@[i]) == ctx.mk[i],
            forall|i: int| 0 <= i < k ==> (#[trigger] labels@[i])@ == ctx.labels[i],
        decreases m + 1 - k,
    {
        let dir = prefix(&comps, k);
        mk.push(tree.makefile_lines_at(&dir));
        let lab = join_range(&tree.root, &comps, 0, k);
        assert(seqs_of(comps@).subrange(0, k as int) =~= seqs_of(comps@).take(k as int));
        labels.push(lab);
        k = k + 1;
    }
    let obj_label = at_label_exec(&obj, &labels[m]);
    let mut queue: Vec<(Vec<char>, usize, Option<Vec<char>>)> = Vec::new();
    queue.push((copy_chars(&obj), m, None));
    if !same_chars(&stem_o, &obj) {
        queue.push((copy_chars(&stem_o), m, None));
    }
    let ghost first = queue_of(queue@);
    let count: usize = if m >= 1 {
        m - 1
    } else {
        0
    };
    let empty: Vec<char> = Vec::new();
    let mut i: usize = 0;
    while i < count
        invariant
            i <= count,
            count == if m >= 1 {
                (m - 1) as int
            } else {
                0
            },
            m + 1 == comps.len(),
            cs == seqs_of(comps@),
            empty@ == Seq::<char>::empty(),
            queue_of(queue@) == first + ancestor_seeds(cs, stem_o@).take(i as int),
        decreases count - i,
    {
        let kk = m - 1 - i;
        let mut t = join_range(&empty, &comps, kk, m);
        join_one_exec(&mut t, &stem_o);
        assert(cs.subrange(kk as int, m as int).push(stem_o@).drop_last() =~= cs.subrange(
            kk as int,
            m as int,
        ));
        let ghost q0 = queue_of(queue@);
        queue.push((t, kk, Some(copy_chars(&comps[kk]))));
        assert(queue_of(queue@) =~= q0.push(ancestor_seed(cs, stem_o@, kk as int)));
        assert(ancestor_seeds(cs, stem_o@).take(i + 1) =~= ancestor_seeds(cs, stem_o@).take(
            i as int,
        ).push(ancestor_seed(cs, stem_o@, kk as int)));
        i = i + 1;
    }
    assert(ancestor_seeds(cs, stem_o@).take(count as int) =~= ancestor_seeds(cs, stem_o@));
    let mut head: usize = 0;
    let mut visited: Vec<(Vec<char>, usize)> = Vec::new();
    let mut objects: Vec<Vec<char>> = Vec::new();
    objects.push(copy_chars(&obj));
    let mut symbols: Vec<Vec<char>> = Vec::new();
    let mut edges: Vec<TraceEdge> = Vec::new();
    let ghost init = initial_state(cs);
    assert(queue_of(queue@) =~= init.queue);
    assert(visited_of(visited@) =~= init.visited);
    assert(seqs_of(objects@) =~= init.objects);
    assert(seqs_of(symbols@) =~= init.symbols);
    assert(edges_of(edges@) =~= init.edges);
    let ghost mut it: nat = 0;
    proof {
        lemma_initial_inv(tree@, cs);
    }
    let ghost bound: int = (tree_objects(ctx.mk).len() + 1) as int;
    while head < queue.len()
        invariant
            m + 1 == comps.len(),
            cs == seqs_of(comps@),
            ctx == trace_ctx(tree@, cs),
            ctx.mk.len() == m + 1,
            ctx.labels.len() == m + 1,
            mk.len() == m + 1,
            labels.len() == m + 1,
            forall|i: int| 0 <= i <= m ==> lines_view(#[trigger] mk@[i]) == ctx.mk[i],
            forall|i: int| 0 <= i <= m ==> (#[trigger] labels@[i])@ == ctx.labels[i],
            obj_label@ == ctx.obj_label,
            obj@ == object_of_file(cs.last()),
            bound == tree_objects(ctx.mk).len() + 1,
            state_of(queue@, head as int, visited@, objects@, symbols@, edges@) == run(
                ctx,
                init,
                it,
            ),
            walk_inv(ctx, obj@, run(ctx, init, it)),
        decreases bound - objects.len(), queue.len() - head,
    {
        proof {
            lemma_step_inv(ctx, obj@, run(ctx, init, it));
            lemma_objects_bound(ctx, obj@, step(ctx, run(ctx, init, it)));
        }
        let ghost st = run(ctx, init, it);
        let target = copy_chars(&queue[head].0);
        let k = queue[head].1;
        let hint: Option<Vec<char>> = match &queue[head].2 {
            Some(h) => Some(copy_chars(h)),
            None => None,
        };
        assert(st.queue[head as int] == (target@, k as int, opt_view(hint)));
        assert(ctx.mk.len() == m + 1);
        assert(0 <= k < ctx.mk.len());
        head = head + 1;
        if !was_visited(&visited, &target, k) {
            let ghost v0 = visited_of(visited@);
            visited.push((copy_chars(&target), k));
            assert(visited_of(visited@) =~= v0.push((target@, k as int)));
            match &mk[k] {
                Some(lines) => {
                    let (syms, conts) = scan_makefile_for_targets(lines, &target, &hint);
                    add_symbols(&mut symbols, &mut edges, &syms, &obj_label, &hint);
                    add_containers_exec(
                        &mut queue,
                        &mut objects,
                        &mut edges,
                        &conts,
                        &target,
                        k,
                        &labels[k],
                        &hint,
                        Ghost(ctx),
                        Ghost(head as int),
                        Ghost(visited@),
                        Ghost(symbols@),
                    );
                },
                None => {},
            }
        }
        proof {
            it = it + 1;
        }
    }
    proof {
        lemma_walk_is_run(ctx, init, it);
    }
    let r = TraceResult {
        file,
        objects: strings_of(&objects),
        symbols: strings_of(&symbols),
        edges,
        error: None,
    };
    r
}

proof fn lemma_walk_inv(tree: TreeView, comps: Seq<Seq<char>>)
    requires
        comps.len() >= 1,
    ensures
        walk_inv(
            trace_ctx(tree, comps),
            object_of_file(comps.last()),
            walk(trace_ctx(tree, comps), initial_state(comps)),
        ),
{
    let ctx = trace_ctx(tree, comps);
    let init = initial_state(comps);
    lemma_initial_inv(tree, comps);
    let n = choose|n: nat| done(#[trigger] run(ctx, init, n));
    lemma_run_inv(ctx, object_of_file(comps.last()), init, n);
}

/// A trace without error lists among its objects the one built from the file
/// itself: its name with `.c` replaced by `.o`.
pub proof fn lemma_trace_has_own_object(rel: Seq<char>, tree: TreeView)
    requires
        trace_spec(rel, tree).error is None,
    ensures
        trace_spec(rel, tree).objects.contains(object_of_file(path_components(rel).last())),
{
    let comps = path_components(rel);
    lemma_walk_inv(tree, comps);
    assert(trace_spec(rel, tree).objects[0] == object_of_file(comps.last()));
}

/// Every symbol a trace finds is `CONFIG_` followed by one or more of `[A-Z0-9_]`.
pub proof fn lemma_trace_symbols_well_formed(rel: Seq<char>, tree: TreeView)
    ensures
        forall|i: int|
            0 <= i < trace_spec(rel, tree).symbols.len() ==> is_config_symbol(
                #[trigger] trace_spec(rel, tree).symbols[i],
            ),
{
    let comps = path_components(rel);
    if comps.len() > 0 && tree.files.contains(comps) {
        lemma_walk_inv(tree, comps);
    }
}

/// A trace without error of a path ending in `.c` lists among its objects the
/// path's basename with `.c` replaced by `.o` (for a path that names a
/// directory or does not start with white space, which trimming would drop).
pub proof fn lemma_trace_has_basename_object(rel: Seq<char>, tree: TreeView)
    requires
        trace_spec(rel, tree).error is None,
        rel.len() >= 2,
        rel[rel.len() - 2] == '.',
        rel[rel.len() - 1] == 'c',
        rel.contains('/') || !is_space(rel[0]),
    ensures
        trace_spec(rel, tree).objects.contains(object_of_file(basename(rel))),
{
    lemma_trace_has_own_object(rel, tree);
    lemma_last_component(rel);
}

/// A trace lists each object and each symbol once.
pub proof fn lemma_trace_no_repeats(rel: Seq<char>, tree: TreeView)
    ensures
        trace_spec(rel, tree).objects.no_duplicates(),
        trace_spec(rel, tree).symbols.no_duplicates(),
{
    let comps = path_components(rel);
    if comps.len() > 0 && tree.files.contains(comps) {
        lemma_walk_inv(tree, comps);
    }
}

/// Tracing the same file twice on the same tree gives the same symbols and
/// the same objects.
pub proof fn lemma_trace_idempotent(rel: Seq<char>, tree: TreeView, a: TraceView, b: TraceView)
    requires
        a == trace_spec(rel, tree),
        b == trace_spec(rel, tree),
    ensures
        a.symbols.to_set() == b.symbols.to_set(),
        a.objects.to_set() == b.objects.to_set(),
{
}

/// Adding a Makefile in a directory that is neither the file's directory nor
/// one of its ancestors (for instance a directory below the file's) leaves the
/// trace unchanged; in particular no symbol is lost.
pub proof fn lemma_unrelated_makefile(
    rel: Seq<char>,
    tree: TreeView,
    dir: Seq<Seq<char>>,
    lines: Seq<Seq<char>>,
)
    requires
        forall|k: int|
            0 <= k < path_components(rel).len() ==> dir != #[trigger] path_components(rel).take(
                k,
            ),
    ensures
        trace_spec(rel, TreeView { makefiles: tree.makefiles.push((dir, lines)), ..tree })
            == trace_spec(rel, tree),
        trace_spec(rel, tree).symbols.to_set().subset_of(
            trace_spec(
                rel,
                TreeView { makefiles: tree.makefiles.push((dir, lines)), ..tree },
            ).symbols.to_set(),
        ),
{
    let comps = path_components(rel);
    let tree2 = TreeView { makefiles: tree.makefiles.push((dir, lines)), ..tree };
    if comps.len() > 0 {
        let c1 = trace_ctx(tree, comps);
        let c2 = trace_ctx(tree2, comps);
        assert forall|k: int| 0 <= k < c1.mk.len() implies c1.mk[k] == c2.mk[k] by {
            assert(dir != comps.take(k));
            assert(tree2.makefiles.drop_last() == tree.makefiles);
        }
        assert(c1.mk =~= c2.mk);
        assert(c1 == c2);
    }
}

} // verus!
