use kcfg_vex::error::KcfgVexError;
use kcfg_vex::order::{lex_less, sorted_unique};
use kcfg_vex::pipeline::{
    advisory_url, collect_trace_symbols, config_pair_lines, failed_assessment, next_fetch_step,
    push_advisory_pairs,
    process_single_cve_with_configs, split_by_state, FetchEvent, FetchStep,
};
use kcfg_vex::tracer::SourceTree;
use kcfg_vex::vex::VexEntry;

fn tree() -> SourceTree {
    let mut t = SourceTree::new("/src");
    t.add_file("drivers/x/a.c");
    t.add_file("drivers/y/b.c");
    t.add_makefile("drivers/x", "obj-$(CONFIG_X) += a.o\n");
    t.add_makefile("drivers/y", "obj-$(CONFIG_Y) += b.o\n");
    t
}

fn strs(v: &[&str]) -> Vec<String> {
    v.iter().map(|s| s.to_string()).collect()
}

#[test]
fn assess_affected_and_not_affected() {
    let t = tree();
    let files = strs(&["drivers/x/a.c", "drivers/y/b.c", "missing/c.c"]);
    let refs = strs(&["urn:cdx:u/1#kernel"]);
    let enabled = Some(strs(&["CONFIG_Y"]));
    let (entry, union) = process_single_cve_with_configs("CVE-1", Some(&files), &t, &refs, &enabled);
    assert_eq!(union, strs(&["CONFIG_X", "CONFIG_Y"]));
    let e = entry.unwrap();
    assert_eq!(e.state, "affected");
    assert_eq!(e.detail, "Enabled symbols: CONFIG_X, CONFIG_Y");
    assert_eq!(e.component_refs, refs);

    let (entry, _) = process_single_cve_with_configs("CVE-1", Some(&files), &t, &refs, &None);
    let e = entry.unwrap();
    assert_eq!(e.state, "not_affected");
    assert_eq!(e.justification.as_deref(), Some("code_not_reachable"));
}

#[test]
fn assess_without_files_or_refs() {
    let t = tree();
    let refs = strs(&["r"]);
    let empty: Vec<String> = Vec::new();
    let (entry, union) = process_single_cve_with_configs("CVE-2", Some(&empty), &t, &refs, &None);
    let e = entry.unwrap();
    assert_eq!(e.state, "under_investigation");
    assert_eq!(e.detail, "No programFiles in CVE record");
    assert!(union.is_empty());
    let (entry, _) = process_single_cve_with_configs("CVE-2", Some(&empty), &t, &empty, &None);
    assert!(entry.is_none());
    let (entry, union) = process_single_cve_with_configs("CVE-2", None, &t, &refs, &None);
    assert!(entry.is_none());
    assert!(union.is_empty());
    let files = strs(&["drivers/x/a.c"]);
    let (entry, union) = process_single_cve_with_configs("CVE-3", Some(&files), &t, &empty, &None);
    assert!(entry.is_none());
    assert_eq!(union, strs(&["CONFIG_X"]));
}

#[test]
fn permuted_advisories_give_same_verdicts() {
    let t = tree();
    let refs = strs(&["r"]);
    let enabled = Some(strs(&["CONFIG_X"]));
    let a = strs(&["drivers/x/a.c", "drivers/y/b.c"]);
    let b = strs(&["drivers/y/b.c"]);
    let c: Vec<String> = Vec::new();
    let list = vec![("CVE-A", &a), ("CVE-B", &b), ("CVE-C", &c), ("CVE-B", &b)];
    let run = |items: &Vec<(&str, &Vec<String>)>| {
        let mut out: Vec<(String, String, Option<String>, String)> = Vec::new();
        let mut pairs: Vec<(String, String)> = Vec::new();
        for (id, f) in items {
            let (e, u) = process_single_cve_with_configs(id, Some(f), &t, &refs, &enabled);
            let e = e.unwrap();
            out.push((e.cve_id, e.state, e.justification, e.detail));
            push_advisory_pairs(&mut pairs, id, &u);
        }
        out.sort();
        (out, config_pair_lines(&pairs))
    };
    let mut reversed = list.clone();
    reversed.reverse();
    let (va, la) = run(&list);
    let (vb, lb) = run(&reversed);
    assert_eq!(va, vb);
    assert_eq!(la, lb);
    assert_eq!(la.len(), 4);
}

#[test]
fn trace_symbols_sorted() {
    let t = tree();
    let files = strs(&["drivers/y/b.c", "drivers/x/a.c", "drivers/y/b.c"]);
    assert_eq!(collect_trace_symbols(&files, &t), strs(&["CONFIG_X", "CONFIG_Y"]));
}

#[test]
fn config_pairs_sorted_lines() {
    let pairs = vec![
        ("CVE-2".to_string(), "CONFIG_B".to_string()),
        ("CVE-1".to_string(), "CONFIG_Z".to_string()),
        ("CVE-1".to_string(), "CONFIG_A".to_string()),
        ("CVE-2".to_string(), "CONFIG_B".to_string()),
    ];
    assert_eq!(
        config_pair_lines(&pairs),
        strs(&["CVE-1 CONFIG_A", "CVE-1 CONFIG_Z", "CVE-2 CONFIG_B", "CVE-2 CONFIG_B"])
    );
    assert!(config_pair_lines(&Vec::new()).is_empty());
}

#[test]
fn config_pairs_ordered_by_id_then_symbol() {
    let pairs = vec![
        ("CVE-1\u{1}".to_string(), "CONFIG_A".to_string()),
        ("CVE-1".to_string(), "CONFIG_Z".to_string()),
    ];
    assert_eq!(
        config_pair_lines(&pairs),
        vec!["CVE-1 CONFIG_Z".to_string(), "CVE-1\u{1} CONFIG_A".to_string()]
    );
}

#[test]
fn pairs_of_an_advisory() {
    let mut out = vec![("CVE-0".to_string(), "CONFIG_Q".to_string())];
    push_advisory_pairs(&mut out, "CVE-1", &strs(&["CONFIG_A", "CONFIG_B"]));
    assert_eq!(
        out,
        vec![
            ("CVE-0".to_string(), "CONFIG_Q".to_string()),
            ("CVE-1".to_string(), "CONFIG_A".to_string()),
            ("CVE-1".to_string(), "CONFIG_B".to_string()),
        ]
    );
}

#[test]
fn failed_read_is_recorded_for_that_advisory() {
    let refs = strs(&["r"]);
    let (e, u) = failed_assessment("CVE-9", "IO error: denied", &refs);
    let e = e.unwrap();
    assert_eq!(e.cve_id, "CVE-9");
    assert_eq!(e.state, "under_investigation");
    assert_eq!(e.detail, "IO error: denied");
    assert_eq!(e.justification, None);
    assert_eq!(e.component_refs, refs);
    assert!(u.is_empty());
    assert!(failed_assessment("CVE-9", "x", &Vec::new()).0.is_none());
}

#[test]
fn groups_by_state_in_fixed_order() {
    let mk = |id: &str, st: &str| VexEntry::new(id.to_string(), st.to_string(), String::new(), None, Vec::new());
    let entries = vec![
        mk("1", "under_investigation"),
        mk("2", "affected"),
        mk("3", "weird"),
        mk("4", "affected"),
    ];
    let groups = split_by_state(&entries);
    assert_eq!(
        groups,
        vec![
            ("affected".to_string(), vec![1usize, 3]),
            ("under_investigation".to_string(), vec![0usize]),
            ("weird".to_string(), vec![2usize]),
        ]
    );
    assert!(split_by_state(&Vec::new()).is_empty());
}

#[test]
fn fetch_steps() {
    assert!(matches!(next_fetch_step(false, true, FetchEvent::Start), FetchStep::ReadCache));
    assert!(matches!(next_fetch_step(true, true, FetchEvent::Start), FetchStep::Download));
    assert!(matches!(next_fetch_step(false, false, FetchEvent::Start), FetchStep::Download));
    assert!(matches!(next_fetch_step(false, true, FetchEvent::CacheHit), FetchStep::Done));
    assert!(matches!(next_fetch_step(false, true, FetchEvent::CacheMiss), FetchStep::Download));
    assert!(matches!(next_fetch_step(false, true, FetchEvent::Downloaded), FetchStep::SaveCache));
    assert!(matches!(next_fetch_step(false, false, FetchEvent::Downloaded), FetchStep::Done));
    assert!(matches!(next_fetch_step(false, true, FetchEvent::DownloadFailed), FetchStep::Done));
    assert!(matches!(next_fetch_step(false, true, FetchEvent::Saved), FetchStep::Done));
}

#[test]
fn advisory_address() {
    assert_eq!(advisory_url("CVE-2024-1"), "https://cveawg.mitre.org/api/cve/CVE-2024-1");
}

#[test]
fn error_messages() {
    assert_eq!(KcfgVexError::CveNotFound("CVE-1".to_string()).message(), "CVE not found: CVE-1");
    assert_eq!(
        KcfgVexError::InvalidConfig("bad".to_string()).message(),
        "Invalid kernel configuration: bad"
    );
}

#[test]
fn lexicographic_order() {
    assert!(lex_less("a", "b"));
    assert!(lex_less("ab", "abc"));
    assert!(!lex_less("abc", "abc"));
    assert!(!lex_less("b", "a"));
    assert_eq!(
        sorted_unique(&strs(&["b", "a", "b", ""])),
        strs(&["", "a", "b"])
    );
}
