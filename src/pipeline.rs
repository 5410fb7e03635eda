//! The scan of a list of advisories against one source tree and one
//! configuration: per advisory, the union of the symbols its files need, the
//! verdict, and the outputs built from them.
use vstd::prelude::*;
use crate::text::{chars_of, string_of, strs_of, seqs_of, append_chars, strings_of};
use crate::matcher::{insert_all, insert_all_exec, same_chars};
use crate::tracer::{SourceTree, TreeView, trace_spec, trace_kernel_config};
use crate::vex::{
    VexEntry, derive_vex_state, verdict_state, verdict_justification, verdict_detail, opt_str,
};
use crate::order::{strictly_sorted, sorted_unique, sort_pairs, pairs_of, pair_le, lemma_pair_le_total};
use vstd::relations::sorted_by;
use vstd::seq_lib::lemma_sorted_unique;
use vstd::seq_lib::{to_multiset_contains, to_multiset_build, to_multiset_insert, to_multiset_len, lemma_multiset_commutative};

verus! {

/// The symbols that the traces of `files` find, each once, in order of
/// discovery; files not in the tree add nothing.
pub open spec fn trace_union(files: Seq<Seq<char>>, tree: TreeView) -> Seq<Seq<char>>
    decreases files.len(),
{
    if files.len() == 0 {
        Seq::empty()
    } else {
        let prev = trace_union(files.drop_last(), tree);
        let t = trace_spec(files.last(), tree);
        if t.error is Some {
            prev
        } else {
            insert_all(prev, t.symbols)
        }
    }
}

/// Some symbol of `union` is enabled; with no configuration, none is.
pub open spec fn enabled_hit(union: Seq<Seq<char>>, enabled: Option<Seq<Seq<char>>>) -> bool {
    match enabled {
        Some(e) => exists|i: int| 0 <= i < union.len() && e.contains(#[trigger] union[i]),
        None => false,
    }
}

/// An entry's id, state, justification, detail and component references.
pub open spec fn entry_view(e: VexEntry) -> (
    Seq<char>,
    Seq<char>,
    Option<Seq<char>>,
    Seq<char>,
    Seq<Seq<char>>,
) {
    (e.cve_id@, e.state@, opt_str(e.justification), e.detail@, strs_of(e.component_refs@))
}

pub open spec fn opt_entry_view(e: Option<VexEntry>) -> Option<
    (Seq<char>, Seq<char>, Option<Seq<char>>, Seq<char>, Seq<Seq<char>>),
> {
    match e {
        Some(x) => Some(entry_view(x)),
        None => None,
    }
}

pub open spec fn opt_strs(o: Option<Vec<String>>) -> Option<Seq<Seq<char>>> {
    match o {
        Some(v) => Some(strs_of(v@)),
        None => None,
    }
}

/// The outcome for one advisory: its VEX entry (only when there are
/// component references to attach it to) and the symbols its files need.
/// `files` is `None` when the advisory record could not be had.
pub open spec fn assess_spec(
    id: Seq<char>,
    files: Option<Seq<Seq<char>>>,
    tree: TreeView,
    refs: Seq<Seq<char>>,
    enabled: Option<Seq<Seq<char>>>,
) -> (Option<(Seq<char>, Seq<char>, Option<Seq<char>>, Seq<char>, Seq<Seq<char>>)>, Seq<Seq<char>>) {
    match files {
        None => (None, Seq::empty()),
        Some(fs) => if fs.len() == 0 {
            (
                if refs.len() > 0 {
                    Some(
                        (
                            id,
                            "under_investigation"@,
                            None,
                            "No programFiles in CVE record"@,
                            refs,
                        ),
                    )
                } else {
                    None
                },
                Seq::empty(),
            )
        } else {
            let u = trace_union(fs, tree);
            let hit = enabled_hit(u, enabled);
            (
                if refs.len() > 0 {
                    Some(
                        (
                            id,
                            verdict_state(hit, u),
                            verdict_justification(hit, u),
                            verdict_detail(hit, u),
                            refs,
                        ),
                    )
                } else {
                    None
                },
                u,
            )
        },
    }
}

fn copy_strings(v: &Vec<String>) -> (r: Vec<String>)
    ensures
        strs_of(r@) == strs_of(v@),
{
    let mut r: Vec<String> = Vec::new();
    let mut i: usize = 0;
    while i < v.len()
        invariant
            i <= v.len(),
            strs_of(r@) == strs_of(v@).take(i as int),
        decreases v.len() - i,
    {
        let ghost before = strs_of(r@);
        r.push(v[i].clone());
        assert(strs_of(r@) =~= before.push(v[i as int]@));
        assert(strs_of(v@).take(i + 1) =~= strs_of(v@).take(i as int).push(v[i as int]@));
        i = i + 1;
    }
    assert(strs_of(v@).take(v.len() as int) =~= strs_of(v@));
    r
}

fn chars_of_all(v: &Vec<String>) -> (r: Vec<Vec<char>>)
    ensures
        seqs_of(r@) == strs_of(v@),
{
    let mut r: Vec<Vec<char>> = Vec::new();
    let mut i: usize = 0;
    while i < v.len()
        invariant
            i <= v.len(),
            seqs_of(r@) == strs_of(v@).take(i as int),
        decreases v.len() - i,
    {
        let c = chars_of(v[i].as_str());
        let ghost before = seqs_of(r@);
        r.push(c);
        assert(seqs_of(r@) =~= before.push(v[i as int]@));
        assert(strs_of(v@).take(i + 1) =~= strs_of(v@).take(i as int).push(v[i as int]@));
        i = i + 1;
    }
    assert(strs_of(v@).take(v.len() as int) =~= strs_of(v@));
    r
}

/// Whether `v` holds `x`.
fn contains_string(v: &Vec<String>, x: &Vec<char>) -> (r: bool)
    ensures
        r == strs_of(v@).contains(x@),
{
    let mut i: usize = 0;
    while i < v.len()
        invariant
            i <= v.len(),
            forall|k: int| 0 <= k < i ==> strs_of(v@)[k] != x@,
        decreases v.len() - i,
    {
        if same_chars(&chars_of(v[i].as_str()), x) {
            assert(strs_of(v@)[i as int] == x@);
            return true;
        }
        i = i + 1;
    }
    false
}

/// The symbols needed by the files, each once, in order of discovery.
fn union_of_traces(files: &Vec<String>, tree: &SourceTree) -> (r: Vec<Vec<char>>)
    ensures
        seqs_of(r@) == trace_union(strs_of(files@), tree@),
{
    let mut union: Vec<Vec<char>> = Vec::new();
    let mut i: usize = 0;
    assert(seqs_of(union@) =~= Seq::<Seq<char>>::empty());
    while i < files.len()
        invariant
            i <= files.len(),
            seqs_of(union@) == trace_union(strs_of(files@).take(i as int), tree@),
        decreases files.len() - i,
    {
        let ghost pre = strs_of(files@).take(i + 1);
        assert(pre.drop_last() =~= strs_of(files@).take(i as int));
        assert(pre.last() == files[i as int]@);
        let t = trace_kernel_config(files[i].as_str(), tree);
        if t.error.is_none() {
            let syms = chars_of_all(&t.symbols);
            insert_all_exec(&mut union, &syms);
        }
        i = i + 1;
    }
    assert(strs_of(files@).take(files.len() as int) =~= strs_of(files@));
    union
}

/// The verdict for one advisory.  `files` are the source files its record
/// names (`None` when the record could not be had), `sbom_component_refs` the
/// components a VEX entry applies to (no entry is made without them), and
/// `enabled_symbols` the enabled symbols of the configuration, if one was
/// given.  Returns the entry and the symbols the files need.
pub fn process_single_cve_with_configs(
    cve_id: &str,
    files: Option<&Vec<String>>,
    tree: &SourceTree,
    sbom_component_refs: &Vec<String>,
    enabled_symbols: &Option<Vec<String>>,
) -> (r: (Option<VexEntry>, Vec<String>))
    ensures
        (opt_entry_view(r.0), strs_of(r.1@)) == assess_spec(
            cve_id@,
            match files {
                Some(f) => Some(strs_of(f@)),
                None => None,
            },
            tree@,
            strs_of(sbom_component_refs@),
            opt_strs(*enabled_symbols),
        ),
{
    let fs = match files {
        Some(f) => f,
        None => {
            let empty: Vec<String> = Vec::new();
            assert(strs_of(empty@) =~= Seq::<Seq<char>>::empty());
            return (None, empty);
        },
    };
    if fs.len() == 0 {
        let empty: Vec<String> = Vec::new();
        assert(strs_of(empty@) =~= Seq::<Seq<char>>::empty());
        if sbom_component_refs.len() > 0 {
            let e = VexEntry::new(
                cve_id.to_owned(),
                "under_investigation".to_owned(),
                "No programFiles in CVE record".to_owned(),
                None,
                copy_strings(sbom_component_refs),
            );
            return (Some(e), empty);
        }
        return (None, empty);
    }
    let union_chars = union_of_traces(fs, tree);
    let union = strings_of(&union_chars);
    let ghost u = seqs_of(union_chars@);
    let hit = match enabled_symbols {
        Some(enabled) => {
            let mut found = false;
            let mut i: usize = 0;
            while i < union_chars.len() && !found
                invariant
                    i <= union_chars.len(),
                    u == seqs_of(union_chars@),
                    !found ==> forall|k: int|
                        0 <= k < i ==> !strs_of(enabled@).contains(#[trigger] u[k]),
                    found ==> exists|k: int|
                        0 <= k < union_chars.len() && strs_of(enabled@).contains(#[trigger] u[k]),
                decreases union_chars.len() - i,
            {
                assert(u[i as int] == union_chars@[i as int]@);
                if contains_string(enabled, &union_chars[i]) {
                    found = true;
                }
                i = i + 1;
            }
            found
        },
        None => false,
    };
    assert(hit == enabled_hit(u, opt_strs(*enabled_symbols)));
    let (state, justification, detail) = derive_vex_state(hit, &union);
    if sbom_component_refs.len() > 0 {
        let e = VexEntry::new(
            cve_id.to_owned(),
            state,
            detail,
            justification,
            copy_strings(sbom_component_refs),
        );
        (Some(e), union)
    } else {
        (None, union)
    }
}

proof fn lemma_map_permutation<A, B>(xs: Seq<A>, ys: Seq<A>, f: spec_fn(A) -> B)
    requires
        xs.to_multiset() == ys.to_multiset(),
    ensures
        xs.map_values(f).to_multiset() == ys.map_values(f).to_multiset(),
    decreases xs.len(),
{
    broadcast use vstd::multiset::group_multiset_axioms;
    broadcast use vstd::seq_lib::group_to_multiset_ensures;

    to_multiset_len(xs);
    to_multiset_len(ys);
    if xs.len() == 0 {
        assert(xs.map_values(f) =~= Seq::<B>::empty());
        assert(ys.map_values(f) =~= Seq::<B>::empty());
    } else {
        let x = xs.last();
        let xr = xs.drop_last();
        assert(xs =~= xr.push(x));
        to_multiset_build(xr, x);
        to_multiset_contains(ys, x);
        let j = choose|j: int| 0 <= j < ys.len() && ys[j] == x;
        let yr = ys.remove(j);
        assert(ys =~= yr.insert(j, x));
        to_multiset_insert(yr, j, x);
        assert(xr.to_multiset() =~= yr.to_multiset()) by {
            assert forall|e: A| xr.to_multiset().count(e) == yr.to_multiset().count(e) by {
                assert(xr.to_multiset().insert(x).count(e) == yr.to_multiset().insert(x).count(e));
            }
        }
        lemma_map_permutation(xr, yr, f);
        assert(xs.map_values(f) =~= xr.map_values(f).push(f(x)));
        assert(ys.map_values(f) =~= yr.map_values(f).insert(j, f(x)));
        to_multiset_build(xr.map_values(f), f(x));
        to_multiset_insert(yr.map_values(f), j, f(x));
    }
}

/// The advisory–symbol pairs of one advisory.
pub open spec fn advisory_pairs(id: Seq<char>, union: Seq<Seq<char>>) -> Seq<(Seq<char>, Seq<char>)> {
    union.map_values(|sym: Seq<char>| (id, sym))
}

/// The pairs of a list of advisories with the symbols each needs, in order.
pub open spec fn all_pairs(outs: Seq<(Seq<char>, Seq<Seq<char>>)>) -> Seq<(Seq<char>, Seq<char>)>
    decreases outs.len(),
{
    if outs.len() == 0 {
        Seq::empty()
    } else {
        all_pairs(outs.drop_last()) + advisory_pairs(outs.last().0, outs.last().1)
    }
}

proof fn lemma_all_pairs_insert(s: Seq<(Seq<char>, Seq<Seq<char>>)>, j: int, x: (Seq<char>, Seq<Seq<char>>))
    requires
        0 <= j <= s.len(),
    ensures
        all_pairs(s.insert(j, x)).to_multiset() == all_pairs(s).to_multiset().add(
            advisory_pairs(x.0, x.1).to_multiset(),
        ),
    decreases s.len(),
{
    broadcast use vstd::multiset::group_multiset_axioms;

    let t = s.insert(j, x);
    if j == s.len() {
        assert(t.drop_last() =~= s);
        lemma_multiset_commutative(all_pairs(s), advisory_pairs(x.0, x.1));
    } else {
        assert(t.drop_last() =~= s.drop_last().insert(j, x));
        assert(t.last() == s.last());
        lemma_all_pairs_insert(s.drop_last(), j, x);
        let b = advisory_pairs(s.last().0, s.last().1);
        lemma_multiset_commutative(all_pairs(t.drop_last()), b);
        lemma_multiset_commutative(all_pairs(s.drop_last()), b);
        assert(all_pairs(t).to_multiset() =~= all_pairs(s).to_multiset().add(
            advisory_pairs(x.0, x.1).to_multiset(),
        ));
    }
}

proof fn lemma_all_pairs_permutation(
    xs: Seq<(Seq<char>, Seq<Seq<char>>)>,
    ys: Seq<(Seq<char>, Seq<Seq<char>>)>,
)
    requires
        xs.to_multiset() == ys.to_multiset(),
    ensures
        all_pairs(xs).to_multiset() == all_pairs(ys).to_multiset(),
    decreases xs.len(),
{
    broadcast use vstd::multiset::group_multiset_axioms;
    broadcast use vstd::seq_lib::group_to_multiset_ensures;

    to_multiset_len(xs);
    to_multiset_len(ys);
    if xs.len() == 0 {
        assert(ys =~= Seq::<(Seq<char>, Seq<Seq<char>>)>::empty());
    } else {
        let x = xs.last();
        let xr = xs.drop_last();
        assert(xs =~= xr.push(x));
        to_multiset_build(xr, x);
        to_multiset_contains(ys, x);
        let j = choose|j: int| 0 <= j < ys.len() && ys[j] == x;
        let yr = ys.remove(j);
        assert(ys =~= yr.insert(j, x));
        to_multiset_insert(yr, j, x);
        assert(xr.to_multiset() =~= yr.to_multiset()) by {
            assert forall|e: (Seq<char>, Seq<Seq<char>>)|
                xr.to_multiset().count(e) == yr.to_multiset().count(e) by {
                assert(xr.to_multiset().insert(x).count(e) == yr.to_multiset().insert(x).count(e));
            }
        }
        lemma_all_pairs_permutation(xr, yr);
        lemma_multiset_commutative(all_pairs(xr), advisory_pairs(x.0, x.1));
        lemma_all_pairs_insert(yr, j, x);
    }
}

/// An advisory with the symbols its outcome lists.
pub open spec fn id_and_symbols(
    a: (Seq<char>, Option<Seq<Seq<char>>>),
    tree: TreeView,
    refs: Seq<Seq<char>>,
    enabled: Option<Seq<Seq<char>>>,
) -> (Seq<char>, Seq<Seq<char>>) {
    (a.0, assess_spec(a.0, a.1, tree, refs, enabled).1)
}

/// The outcome for an advisory whose files could not be read: nothing is
/// known, so the entry (when there are component references) is
/// `under_investigation` with the failure as its detail, and no symbol is listed.
pub fn failed_assessment(cve_id: &str, failure: &str, sbom_component_refs: &Vec<String>) -> (r: (
    Option<VexEntry>,
    Vec<String>,
))
    ensures
        opt_entry_view(r.0) == if sbom_component_refs@.len() > 0 {
            Some(
                (
                    cve_id@,
                    "under_investigation"@,
                    None::<Seq<char>>,
                    failure@,
                    strs_of(sbom_component_refs@),
                ),
            )
        } else {
            None
        },
        r.1@.len() == 0,
{
    let empty: Vec<String> = Vec::new();
    if sbom_component_refs.len() > 0 {
        let e = VexEntry::new(
            cve_id.to_owned(),
            "under_investigation".to_owned(),
            failure.to_owned(),
            None,
            copy_strings(sbom_component_refs),
        );
        (Some(e), empty)
    } else {
        (None, empty)
    }
}

/// Permuting the list of advisories permutes their outcomes: the outcomes
/// form the same multiset, and the advisory–symbol pair output is the same.
pub proof fn lemma_verdicts_permutation_invariant(
    xs: Seq<(Seq<char>, Option<Seq<Seq<char>>>)>,
    ys: Seq<(Seq<char>, Option<Seq<Seq<char>>>)>,
    tree: TreeView,
    refs: Seq<Seq<char>>,
    enabled: Option<Seq<Seq<char>>>,
    lines_x: Seq<Seq<char>>,
    lines_y: Seq<Seq<char>>,
)
    requires
        xs.to_multiset() == ys.to_multiset(),
    ensures
        xs.map_values(|a: (Seq<char>, Option<Seq<Seq<char>>>)| assess_spec(a.0, a.1, tree, refs, enabled)).to_multiset()
            == ys.map_values(|a: (Seq<char>, Option<Seq<Seq<char>>>)| assess_spec(a.0, a.1, tree, refs, enabled)).to_multiset(),
        is_pair_listing(
            all_pairs(xs.map_values(|a: (Seq<char>, Option<Seq<Seq<char>>>)| id_and_symbols(a, tree, refs, enabled))),
            lines_x,
        ) && is_pair_listing(
            all_pairs(ys.map_values(|a: (Seq<char>, Option<Seq<Seq<char>>>)| id_and_symbols(a, tree, refs, enabled))),
            lines_y,
        ) ==> lines_x == lines_y,
{
    let f = |a: (Seq<char>, Option<Seq<Seq<char>>>)| assess_spec(a.0, a.1, tree, refs, enabled);
    let g = |a: (Seq<char>, Option<Seq<Seq<char>>>)| id_and_symbols(a, tree, refs, enabled);
    lemma_map_permutation(xs, ys, f);
    lemma_map_permutation(xs, ys, g);
    lemma_all_pairs_permutation(xs.map_values(g), ys.map_values(g));
    if is_pair_listing(all_pairs(xs.map_values(g)), lines_x) && is_pair_listing(
        all_pairs(ys.map_values(g)),
        lines_y,
    ) {
        lemma_pair_listing_unique(
            all_pairs(xs.map_values(g)),
            all_pairs(ys.map_values(g)),
            lines_x,
            lines_y,
        );
    }
}

/// Appends the advisory–symbol pairs of one advisory to `out`.
pub fn push_advisory_pairs(out: &mut Vec<(String, String)>, cve_id: &str, union: &Vec<String>)
    ensures
        pairs_of(final(out)@) == pairs_of(old(out)@) + advisory_pairs(cve_id@, strs_of(union@)),
{
    let ghost o0 = pairs_of(out@);
    let mut i: usize = 0;
    while i < union.len()
        invariant
            i <= union.len(),
            pairs_of(out@) == o0 + advisory_pairs(cve_id@, strs_of(union@).take(i as int)),
        decreases union.len() - i,
    {
        let ghost before = pairs_of(out@);
        out.push((cve_id.to_owned(), union[i].clone()));
        assert(pairs_of(out@) =~= before.push((cve_id@, union[i as int]@)));
        assert(advisory_pairs(cve_id@, strs_of(union@).take(i + 1)) =~= advisory_pairs(
            cve_id@,
            strs_of(union@).take(i as int),
        ).push((cve_id@, union[i as int]@)));
        i = i + 1;
    }
    assert(strs_of(union@).take(union.len() as int) =~= strs_of(union@));
}

/// The sorted union of the symbols the files need, as the `trace` command prints it.
pub fn collect_trace_symbols(files: &Vec<String>, tree: &SourceTree) -> (r: Vec<String>)
    ensures
        strictly_sorted(strs_of(r@)),
        strs_of(r@).to_set() == trace_union(strs_of(files@), tree@).to_set(),
{
    let u = union_of_traces(files, tree);
    let s = strings_of(&u);
    sorted_unique(&s)
}

/// `<cve-id> <config-symbol>`
pub open spec fn pair_line(p: (Seq<char>, Seq<char>)) -> Seq<char> {
    p.0 + seq![' '] + p.1
}

/// The line of each pair, in order.
pub open spec fn pair_lines(sp: Seq<(Seq<char>, Seq<char>)>) -> Seq<Seq<char>> {
    sp.map_values(|p: (Seq<char>, Seq<char>)| pair_line(p))
}

/// `lines` are the lines of `pairs`, one per pair, ordered by advisory id and
/// then by symbol.
pub open spec fn is_pair_listing(pairs: Seq<(Seq<char>, Seq<char>)>, lines: Seq<Seq<char>>) -> bool {
    exists|sp: Seq<(Seq<char>, Seq<char>)>|
        sorted_by(sp, |p: (Seq<char>, Seq<char>), q: (Seq<char>, Seq<char>)| pair_le(p, q))
            && sp.to_multiset() == pairs.to_multiset() && #[trigger] pair_lines(sp) == lines
}

/// The lines of the advisory–symbol pairs output: `<cve-id> <config-symbol>`,
/// one per pair (repeated pairs give repeated lines), sorted by advisory id and
/// then by symbol.
pub fn config_pair_lines(pairs: &Vec<(String, String)>) -> (r: Vec<String>)
    ensures
        is_pair_listing(pairs_of(pairs@), strs_of(r@)),
{
    let sorted = sort_pairs(pairs);
    let mut lines: Vec<String> = Vec::new();
    let mut i: usize = 0;
    let ghost sp = pairs_of(sorted@);
    while i < sorted.len()
        invariant
            i <= sorted.len(),
            sp == pairs_of(sorted@),
            strs_of(lines@) == pair_lines(sp.take(i as int)),
        decreases sorted.len() - i,
    {
        let mut l = chars_of(sorted[i].0.as_str());
        l.push(' ');
        append_chars(&mut l, &chars_of(sorted[i].1.as_str()));
        let s = string_of(&l);
        assert(s@ =~= pair_line(sp[i as int]));
        let ghost before = strs_of(lines@);
        lines.push(s);
        assert(strs_of(lines@) =~= before.push(pair_line(sp[i as int])));
        assert(pair_lines(sp.take(i + 1)) =~= pair_lines(sp.take(i as int)).push(
            pair_line(sp[i as int]),
        ));
        i = i + 1;
    }
    assert(sp.take(sorted.len() as int) =~= sp);
    assert(pairs_of(sorted@).to_multiset() == pairs_of(pairs@).to_multiset());
    lines
}

/// Pair lists that hold the same pairs, in whatever order and with the same
/// repetitions, give the same output lines.
pub proof fn lemma_pair_listing_unique(
    p1: Seq<(Seq<char>, Seq<char>)>,
    p2: Seq<(Seq<char>, Seq<char>)>,
    l1: Seq<Seq<char>>,
    l2: Seq<Seq<char>>,
)
    requires
        p1.to_multiset() == p2.to_multiset(),
        is_pair_listing(p1, l1),
        is_pair_listing(p2, l2),
    ensures
        l1 == l2,
{
    let le = |p: (Seq<char>, Seq<char>), q: (Seq<char>, Seq<char>)| pair_le(p, q);
    let s1 = choose|sp: Seq<(Seq<char>, Seq<char>)>|
        sorted_by(sp, le) && sp.to_multiset() == p1.to_multiset() && #[trigger] pair_lines(sp) == l1;
    let s2 = choose|sp: Seq<(Seq<char>, Seq<char>)>|
        sorted_by(sp, le) && sp.to_multiset() == p2.to_multiset() && #[trigger] pair_lines(sp) == l2;
    lemma_pair_le_total();
    lemma_sorted_unique(s1, s2, le);
}

pub open spec fn known_states() -> Seq<Seq<char>> {
    seq!["affected"@, "not_affected"@, "under_investigation"@]
}

pub open spec fn entry_states(entries: Seq<VexEntry>) -> Seq<Seq<char>> {
    entries.map_values(|e: VexEntry| e.state@)
}

/// The positions of the entries whose state is `s`, in order.
pub open spec fn indices_in_state(states: Seq<Seq<char>>, s: Seq<char>) -> Seq<usize>
    decreases states.len(),
{
    if states.len() == 0 {
        Seq::empty()
    } else {
        let prev = indices_in_state(states.drop_last(), s);
        if states.last() == s {
            prev.push((states.len() - 1) as usize)
        } else {
            prev
        }
    }
}

/// For each state of `order` that some entry has, the state and its entries.
pub open spec fn state_groups(order: Seq<Seq<char>>, states: Seq<Seq<char>>) -> Seq<
    (Seq<char>, Seq<usize>),
>
    decreases order.len(),
{
    if order.len() == 0 {
        Seq::empty()
    } else {
        let prev = state_groups(order.drop_last(), states);
        let idx = indices_in_state(states, order.last());
        if idx.len() > 0 {
            prev.push((order.last(), idx))
        } else {
            prev
        }
    }
}

pub open spec fn groups_view(v: Seq<(String, Vec<usize>)>) -> Seq<(Seq<char>, Seq<usize>)> {
    v.map_values(|g: (String, Vec<usize>)| (g.0@, g.1@))
}

fn indices_exec(states: &Vec<Vec<char>>, s: &Vec<char>) -> (r: Vec<usize>)
    ensures
        r@ == indices_in_state(seqs_of(states@), s@),
{
    let mut r: Vec<usize> = Vec::new();
    let mut i: usize = 0;
    while i < states.len()
        invariant
            i <= states.len(),
            r@ == indices_in_state(seqs_of(states@).take(i as int), s@),
        decreases states.len() - i,
    {
        let ghost pre = seqs_of(states@).take(i + 1);
        assert(pre.drop_last() =~= seqs_of(states@).take(i as int));
        assert(pre.last() == states[i as int]@);
        if same_chars(&states[i], s) {
            r.push(i);
        }
        i = i + 1;
    }
    assert(seqs_of(states@).take(states.len() as int) =~= seqs_of(states@));
    r
}

/// Groups the entries by state for writing one VEX file per state: first
/// `affected`, `not_affected` and `under_investigation`, then any other state
/// in order of first appearance; a state that no entry has gets no group.
/// Each group lists the positions of its entries in order.
pub fn split_by_state(entries: &Vec<VexEntry>) -> (r: Vec<(String, Vec<usize>)>)
    ensures
        groups_view(r@) == state_groups(
            insert_all(known_states(), entry_states(entries@)),
            entry_states(entries@),
        ),
{
    let mut states: Vec<Vec<char>> = Vec::new();
    let mut i: usize = 0;
    while i < entries.len()
        invariant
            i <= entries.len(),
            seqs_of(states@) == entry_states(entries@).take(i as int),
        decreases entries.len() - i,
    {
        let c = chars_of(entries[i].state.as_str());
        let ghost before = seqs_of(states@);
        states.push(c);
        assert(seqs_of(states@) =~= before.push(entries[i as int].state@));
        assert(entry_states(entries@).take(i + 1) =~= entry_states(entries@).take(i as int).push(
            entries[i as int].state@,
        ));
        i = i + 1;
    }
    assert(entry_states(entries@).take(entries.len() as int) =~= entry_states(entries@));
    let mut order: Vec<Vec<char>> = Vec::new();
    order.push(chars_of("affected"));
    order.push(chars_of("not_affected"));
    order.push(chars_of("under_investigation"));
    assert(seqs_of(order@) =~= known_states());
    insert_all_exec(&mut order, &states);
    let ghost ord = seqs_of(order@);
    let mut groups: Vec<(String, Vec<usize>)> = Vec::new();
    let mut j: usize = 0;
    assert(groups_view(groups@) =~= Seq::<(Seq<char>, Seq<usize>)>::empty());
    while j < order.len()
        invariant
            j <= order.len(),
            ord == seqs_of(order@),
            seqs_of(states@) == entry_states(entries@),
            groups_view(groups@) == state_groups(ord.take(j as int), entry_states(entries@)),
        decreases order.len() - j,
    {
        let ghost pre = ord.take(j + 1);
        assert(pre.drop_last() =~= ord.take(j as int));
        assert(pre.last() == order[j as int]@);
        let idx = indices_exec(&states, &order[j]);
        if idx.len() > 0 {
            let name = string_of(&order[j]);
            let ghost g = (name@, idx@);
            let ghost before = groups_view(groups@);
            groups.push((name, idx));
            assert(groups_view(groups@) =~= before.push(g));
        }
        j = j + 1;
    }
    assert(ord.take(order.len() as int) =~= ord);
    groups
}

/// What the fetcher does next for one advisory.
#[derive(Debug)]
pub enum FetchStep {
    ReadCache,
    Download,
    SaveCache,
    Done,
}

/// What the last step of the fetcher found.
#[derive(Debug)]
pub enum FetchEvent {
    Start,
    CacheHit,
    CacheMiss,
    Downloaded,
    DownloadFailed,
    Saved,
}

/// The fetcher's next step: the cache is read first unless a refresh is
/// forced or there is no cache directory; a record found nowhere is
/// downloaded, and a downloaded record is saved when there is a cache.
pub fn next_fetch_step(force_refresh: bool, has_cache_dir: bool, event: FetchEvent) -> (r: FetchStep)
    ensures
        r == match event {
            FetchEvent::Start => if !force_refresh && has_cache_dir {
                FetchStep::ReadCache
            } else {
                FetchStep::Download
            },
            FetchEvent::CacheMiss => FetchStep::Download,
            FetchEvent::Downloaded => if has_cache_dir {
                FetchStep::SaveCache
            } else {
                FetchStep::Done
            },
            _ => FetchStep::Done,
        },
{
    match event {
        FetchEvent::Start => if !force_refresh && has_cache_dir {
            FetchStep::ReadCache
        } else {
            FetchStep::Download
        },
        FetchEvent::CacheMiss => FetchStep::Download,
        FetchEvent::Downloaded => if has_cache_dir {
            FetchStep::SaveCache
        } else {
            FetchStep::Done
        },
        _ => FetchStep::Done,
    }
}

/// The address of an advisory record.
pub fn advisory_url(cve_id: &str) -> (r: String)
    ensures
        r@ == "https://cveawg.mitre.org/api/cve/"@ + cve_id@,
{
    let mut u = chars_of("https://cveawg.mitre.org/api/cve/");
    append_chars(&mut u, &chars_of(cve_id));
    string_of(&u)
}

} // verus!
