//! Kernel `.config` files: symbol values and which symbols are enabled.
use vstd::prelude::*;
use crate::text::{chars_of, string_of, strs_of, copy_chars, seqs_of};
use crate::reader::{raw_lines, split_raw};
use crate::paths::{trim, trim_chars};
use crate::matcher::{has_at, has_at_exec, copy_range, same_chars};
use crate::error::KcfgVexError;

verus! {

pub open spec fn lit_config() -> Seq<char> {
    seq!['C', 'O', 'N', 'F', 'I', 'G', '_']
}

pub open spec fn lit_comment_config() -> Seq<char> {
    seq!['#', ' ', 'C', 'O', 'N', 'F', 'I', 'G', '_']
}

pub open spec fn lit_not_set() -> Seq<char> {
    seq![' ', 'i', 's', ' ', 'n', 'o', 't', ' ', 's', 'e', 't']
}

/// The position of the first `=` in `t` from `i` on, if any.
pub open spec fn first_eq(t: Seq<char>, i: int) -> Option<int>
    decreases t.len() - i,
{
    if i < 0 || i >= t.len() {
        None
    } else if t[i] == '=' {
        Some(i)
    } else {
        first_eq(t, i + 1)
    }
}

/// The setting a trimmed line records: `CONFIG_X=v` records `v` for
/// `CONFIG_X`, and `# CONFIG_X is not set` records `n`; other lines record
/// nothing.
pub open spec fn line_setting(t: Seq<char>) -> Option<(Seq<char>, Seq<char>)> {
    if has_at(t, 0, lit_config()) {
        match first_eq(t, 0) {
            Some(e) => Some((t.take(e), t.subrange(e + 1, t.len() as int))),
            None => None,
        }
    } else if t.len() >= 20 && has_at(t, 0, lit_comment_config()) && has_at(
        t,
        t.len() - 11,
        lit_not_set(),
    ) {
        Some((t.subrange(2, t.len() - 11), seq!['n']))
    } else {
        None
    }
}

/// The position of the first entry for `key` from `i` on, or the length.
pub open spec fn key_pos_from(entries: Seq<(Seq<char>, Seq<char>)>, key: Seq<char>, i: int) -> int
    decreases entries.len() - i,
{
    if i < 0 || i >= entries.len() {
        entries.len() as int
    } else if entries[i].0 == key {
        i
    } else {
        key_pos_from(entries, key, i + 1)
    }
}

pub open spec fn key_pos(entries: Seq<(Seq<char>, Seq<char>)>, key: Seq<char>) -> int {
    key_pos_from(entries, key, 0)
}

/// The value recorded for `key`.
pub open spec fn value_of(entries: Seq<(Seq<char>, Seq<char>)>, key: Seq<char>) -> Option<Seq<char>> {
    let i = key_pos(entries, key);
    if 0 <= i < entries.len() {
        Some(entries[i].1)
    } else {
        None
    }
}

/// `entries` with `key` set to `value`: a key seen before keeps its place.
pub open spec fn set_entry(entries: Seq<(Seq<char>, Seq<char>)>, key: Seq<char>, value: Seq<char>) -> Seq<
    (Seq<char>, Seq<char>),
> {
    let i = key_pos(entries, key);
    if 0 <= i < entries.len() {
        entries.update(i, (key, value))
    } else {
        entries.push((key, value))
    }
}

/// The settings of the first lines of a `.config` text, in order of first appearance.
pub open spec fn parse_lines(lines: Seq<Seq<char>>) -> Seq<(Seq<char>, Seq<char>)>
    decreases lines.len(),
{
    if lines.len() == 0 {
        Seq::empty()
    } else {
        let prev = parse_lines(lines.drop_last());
        match line_setting(trim(lines.last())) {
            Some((k, v)) => set_entry(prev, k, v),
            None => prev,
        }
    }
}

/// The settings of a `.config` text; a later line for a symbol overrides an earlier one.
pub open spec fn parse_config(text: Seq<char>) -> Seq<(Seq<char>, Seq<char>)> {
    parse_lines(raw_lines(text))
}

/// A value that enables its symbol: `y`, or `m` when modules count.
pub open spec fn value_enables(v: Seq<char>, include_modules: bool) -> bool {
    v == seq!['y'] || (include_modules && v == seq!['m'])
}

pub open spec fn config_enabled(entries: Seq<(Seq<char>, Seq<char>)>, sym: Seq<char>, include_modules: bool) -> bool {
    match value_of(entries, sym) {
        Some(v) => value_enables(v, include_modules),
        None => false,
    }
}

/// The symbols whose recorded value enables them, in order.
pub open spec fn enabled_keys(entries: Seq<(Seq<char>, Seq<char>)>, include_modules: bool) -> Seq<
    Seq<char>,
>
    decreases entries.len(),
{
    if entries.len() == 0 {
        Seq::empty()
    } else {
        let prev = enabled_keys(entries.drop_last(), include_modules);
        if value_enables(entries.last().1, include_modules) {
            prev.push(entries.last().0)
        } else {
            prev
        }
    }
}

/// A parsed `.config`: each symbol with the value recorded last for it.
#[derive(Debug)]
pub struct DotConfig {
    values: Vec<(Vec<char>, Vec<char>)>,
}

pub open spec fn entries_of(v: Seq<(Vec<char>, Vec<char>)>) -> Seq<(Seq<char>, Seq<char>)> {
    v.map_values(|e: (Vec<char>, Vec<char>)| (e.0@, e.1@))
}

impl View for DotConfig {
    type V = Seq<(Seq<char>, Seq<char>)>;

    closed spec fn view(&self) -> Seq<(Seq<char>, Seq<char>)> {
        entries_of(self.values@)
    }
}

proof fn lemma_key_pos(entries: Seq<(Seq<char>, Seq<char>)>, key: Seq<char>, i: int)
    requires
        0 <= i <= entries.len(),
    ensures
        i <= key_pos_from(entries, key, i) <= entries.len(),
        key_pos_from(entries, key, i) < entries.len() ==> entries[key_pos_from(entries, key, i)].0
            == key,
        forall|j: int| i <= j < key_pos_from(entries, key, i) ==> entries[j].0 != key,
    decreases entries.len() - i,
{
    if i < entries.len() && entries[i].0 != key {
        lemma_key_pos(entries, key, i + 1);
    }
}

fn first_eq_exec(t: &Vec<char>) -> (r: Option<usize>)
    ensures
        match r {
            Some(e) => first_eq(t@, 0) == Some(e as int) && e < t.len(),
            None => first_eq(t@, 0) is None,
        },
{
    let mut i: usize = 0;
    while i < t.len()
        invariant
            i <= t.len(),
            first_eq(t@, 0) == first_eq(t@, i as int),
        decreases t.len() - i,
    {
        if t[i] == '=' {
            return Some(i);
        }
        i = i + 1;
    }
    None
}

fn line_setting_exec(t: &Vec<char>) -> (r: Option<(Vec<char>, Vec<char>)>)
    ensures
        match r {
            Some((k, v)) => line_setting(t@) == Some((k@, v@)),
            None => line_setting(t@) is None,
        },
{
    let lit = vec!['C', 'O', 'N', 'F', 'I', 'G', '_'];
    if has_at_exec(t, 0, &lit) {
        match first_eq_exec(t) {
            Some(e) => Some((copy_range(t, 0, e), copy_range(t, e + 1, t.len()))),
            None => None,
        }
    } else {
        let lit2 = vec!['#', ' ', 'C', 'O', 'N', 'F', 'I', 'G', '_'];
        let lit3 = vec![' ', 'i', 's', ' ', 'n', 'o', 't', ' ', 's', 'e', 't'];
        if t.len() >= 20 && has_at_exec(t, 0, &lit2) && has_at_exec(t, t.len() - 11, &lit3) {
            let n = vec!['n'];
            Some((copy_range(t, 2, t.len() - 11), n))
        } else {
            None
        }
    }
}

/// The position of the first entry for `key`, if any.
fn find_key(values: &Vec<(Vec<char>, Vec<char>)>, key: &Vec<char>) -> (r: Option<usize>)
    ensures
        match r {
            Some(i) => i < values.len() && key_pos(entries_of(values@), key@) == i,
            None => key_pos(entries_of(values@), key@) == values.len(),
        },
{
    let ghost e0 = entries_of(values@);
    proof {
        lemma_key_pos(e0, key@, 0);
    }
    let mut i: usize = 0;
    while i < values.len()
        invariant
            i <= values.len(),
            e0 == entries_of(values@),
            key_pos(e0, key@) == key_pos_from(e0, key@, i as int),
        decreases values.len() - i,
    {
        if same_chars(&values[i].0, key) {
            assert(e0[i as int].0 == key@);
            return Some(i);
        }
        i = i + 1;
    }
    None
}

fn set_entry_exec(values: &mut Vec<(Vec<char>, Vec<char>)>, key: Vec<char>, value: Vec<char>)
    ensures
        entries_of(final(values)@) == set_entry(entries_of(old(values)@), key@, value@),
{
    let ghost e0 = entries_of(values@);
    let ghost kv = (key@, value@);
    match find_key(values, &key) {
        Some(i) => {
            values.set(i, (key, value));
            assert(entries_of(values@) =~= e0.update(i as int, kv));
        },
        None => {
            values.push((key, value));
            assert(entries_of(values@) =~= e0.push(kv));
        },
    }
}

impl DotConfig {
    /// Parses the text of a `.config` file.  Blank lines and comments are
    /// skipped, `CONFIG_X=value` records `value` and `# CONFIG_X is not set`
    /// records `n`.  Parsing never fails.
    pub fn from_text(text: &str) -> (r: Result<DotConfig, KcfgVexError>)
        ensures
            r is Ok,
            r matches Ok(c) ==> c@ == parse_config(text@),
    {
        let chars = chars_of(text);
        let lines = split_raw(&chars);
        let mut values: Vec<(Vec<char>, Vec<char>)> = Vec::new();
        let mut i: usize = 0;
        assert(entries_of(values@) =~= Seq::<(Seq<char>, Seq<char>)>::empty());
        while i < lines.len()
            invariant
                i <= lines.len(),
                seqs_of(lines@) == raw_lines(text@),
                entries_of(values@) == parse_lines(seqs_of(lines@).take(i as int)),
            decreases lines.len() - i,
        {
            let t = trim_chars(&lines[i]);
            assert(seqs_of(lines@).take(i + 1).drop_last() =~= seqs_of(lines@).take(i as int));
            assert(seqs_of(lines@).take(i + 1).last() == lines[i as int]@);
            match line_setting_exec(&t) {
                Some((k, v)) => set_entry_exec(&mut values, k, v),
                None => {},
            }
            i = i + 1;
        }
        assert(seqs_of(lines@).take(lines.len() as int) =~= seqs_of(lines@));
        Ok(DotConfig { values })
    }

    /// Whether `symbol` is enabled: its value is `y`, or `m` when
    /// `include_modules` holds.
    pub fn is_enabled(&self, symbol: &str, include_modules: bool) -> (r: bool)
        ensures
            r == config_enabled(self@, symbol@, include_modules),
    {
        let sym = chars_of(symbol);
        let ghost e = self@;
        match find_key(&self.values, &sym) {
            Some(i) => {
                assert(value_of(e, sym@) == Some(e[i as int].1));
                let v = &self.values[i].1;
                assert(e[i as int].1 == v@);
                let y = vec!['y'];
                let m = vec!['m'];
                assert(y@ == seq!['y'] && m@ == seq!['m']);
                let is_y = same_chars(v, &y);
                let is_m = same_chars(v, &m);
                is_y || (include_modules && is_m)
            },
            None => false,
        }
    }

    /// The symbols that are enabled, in the order they first appear.
    pub fn enabled_set(&self, include_modules: bool) -> (r: Vec<String>)
        ensures
            strs_of(r@) == enabled_keys(self@, include_modules),
    {
        let ghost e = self@;
        let mut out: Vec<String> = Vec::new();
        let y = vec!['y'];
        let m = vec!['m'];
        let mut i: usize = 0;
        assert(strs_of(out@) =~= enabled_keys(e.take(0), include_modules));
        while i < self.values.len()
            invariant
                i <= self.values.len(),
                e == entries_of(self.values@),
                y@ == seq!['y'],
                m@ == seq!['m'],
                strs_of(out@) == enabled_keys(e.take(i as int), include_modules),
            decreases self.values.len() - i,
        {
            assert(e.take(i + 1).drop_last() =~= e.take(i as int));
            assert(e.take(i + 1).last() == e[i as int]);
            let v = &self.values[i].1;
            if same_chars(v, &y) || (include_modules && same_chars(v, &m)) {
                let s = string_of(&self.values[i].0);
                let ghost before = strs_of(out@);
                out.push(s);
                assert(strs_of(out@) =~= before.push(e[i as int].0));
            }
            i = i + 1;
        }
        assert(e.take(self.values.len() as int) =~= e);
        out
    }
}

proof fn lemma_enabled_keys_contains(entries: Seq<(Seq<char>, Seq<char>)>, j: int, include_modules: bool)
    requires
        0 <= j < entries.len(),
        value_enables(entries[j].1, include_modules),
    ensures
        enabled_keys(entries, include_modules).contains(entries[j].0),
    decreases entries.len(),
{
    let prev = enabled_keys(entries.drop_last(), include_modules);
    if j == entries.len() - 1 {
        assert(enabled_keys(entries, include_modules)[prev.len() as int] == entries[j].0);
    } else {
        assert(entries.drop_last()[j] == entries[j]);
        lemma_enabled_keys_contains(entries.drop_last(), j, include_modules);
        let k = choose|k: int| 0 <= k < prev.len() && prev[k] == entries[j].0;
        if value_enables(entries.last().1, include_modules) {
            assert(prev.push(entries.last().0)[k] == entries[j].0);
        }
    }
}

/// Whatever the configuration, a symbol that `is_enabled` reports enabled is
/// among those `enabled_set` lists, with the same treatment of modules.
pub proof fn lemma_enabled_in_set(entries: Seq<(Seq<char>, Seq<char>)>, sym: Seq<char>, include_modules: bool)
    requires
        config_enabled(entries, sym, include_modules),
    ensures
        enabled_keys(entries, include_modules).contains(sym),
{
    lemma_key_pos(entries, sym, 0);
    lemma_enabled_keys_contains(entries, key_pos(entries, sym), include_modules);
}

} // verus!
