use kcfg_vex::matcher::scan_makefile_for_targets;
use kcfg_vex::reader::{logical_line_chars, read_makefile_lines};

fn chars(s: &str) -> Vec<char> {
    s.chars().collect()
}

fn strings(v: &[Vec<char>]) -> Vec<String> {
    v.iter().map(|c| c.iter().collect()).collect()
}

#[test]
fn reader_folds_and_normalises() {
    let text = "obj-y += a.o \\\n\tb.o\n\n   # comment   here  \nlast \\";
    let lines = read_makefile_lines(text);
    assert_eq!(
        lines,
        vec![
            "obj-y += a.o b.o".to_string(),
            "# comment here".to_string(),
            "last".to_string()
        ]
    );
}

#[test]
fn reader_empty_text_has_no_lines() {
    assert!(read_makefile_lines("").is_empty());
    assert!(read_makefile_lines("\n \t\n").is_empty());
}

#[test]
fn scan_finds_all_rule_shapes() {
    let lines = logical_line_chars(
        "obj-$(CONFIG_A) += t.o\nc2-$(CONFIG_B) += t.o\nc3-objs := t.o\nc4-objs-$(CONFIG_D) += t.o\n",
    );
    let (syms, conts) = scan_makefile_for_targets(&lines, &chars("t.o"), &None);
    let syms = strings(&syms);
    let conts = strings(&conts);
    assert_eq!(syms, vec!["CONFIG_A", "CONFIG_B", "CONFIG_D"]);
    assert!(conts.contains(&"obj.o".to_string()));
    assert!(conts.contains(&"c2.o".to_string()));
    assert!(conts.contains(&"c3.o".to_string()));
    assert!(conts.contains(&"c4.o".to_string()));
}

#[test]
fn scan_without_mention_finds_nothing() {
    let lines = logical_line_chars("obj-$(CONFIG_A) += other.o\n");
    let (syms, conts) = scan_makefile_for_targets(&lines, &chars("t.o"), &None);
    assert!(syms.is_empty());
    assert!(conts.is_empty());
}

#[test]
fn scan_empty_target_finds_nothing() {
    let lines = logical_line_chars("obj-$(CONFIG_A) += t.o\n");
    let (syms, conts) = scan_makefile_for_targets(&lines, &chars(""), &Some(chars("sub")));
    assert!(syms.is_empty());
    assert!(conts.is_empty());
}

#[test]
fn scan_directory_gate() {
    let lines = logical_line_chars("obj-$(CONFIG_GATE) += sub/ other/\nobj-$(CONFIG_NO) += subway/\n");
    let (syms, _) = scan_makefile_for_targets(&lines, &chars("sub/x.o"), &Some(chars("sub")));
    assert_eq!(strings(&syms), vec!["CONFIG_GATE"]);
}

#[test]
fn scan_needs_space_after_operator() {
    let lines = logical_line_chars("obj-$(CONFIG_A) +=t.o\n");
    let (syms, _) = scan_makefile_for_targets(&lines, &chars("t.o"), &None);
    assert!(syms.is_empty());
}
