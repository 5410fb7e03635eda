use kcfg_vex::tracer::{trace_kernel_config, SourceTree};

fn has(v: &[String], x: &str) -> bool {
    v.iter().any(|s| s == x)
}

#[test]
fn test_tracer_basic_functionality() {
    let mut tree = SourceTree::new("/work/linux");
    tree.add_file("drivers/net/test_driver.c");
    let makefile_content = r#"
obj-$(CONFIG_TEST_DRIVER) += test_driver.o
obj-$(CONFIG_ANOTHER_DRIVER) += another_driver.o
"#;
    tree.add_makefile("drivers/net", makefile_content);

    let result = trace_kernel_config("drivers/net/test_driver.c", &tree);

    assert_eq!(result.file, "drivers/net/test_driver.c");
    assert!(has(&result.objects, "test_driver.o"));
    assert!(has(&result.symbols, "CONFIG_TEST_DRIVER"));
    assert!(result.error.is_none());
    assert!(!result.edges.is_empty());
}

#[test]
fn test_tracer_container_objects() {
    let mut tree = SourceTree::new("/work/linux");
    tree.add_file("drivers/complex/component.c");
    let makefile_content = r#"
obj-$(CONFIG_COMPLEX_DRIVER) += complex-driver.o
complex-driver-objs := component.o helper.o
complex-driver-objs-$(CONFIG_FEATURE_X) += feature_x.o
"#;
    tree.add_makefile("drivers/complex", makefile_content);

    let result = trace_kernel_config("drivers/complex/component.c", &tree);

    assert!(has(&result.objects, "component.o"));
    assert!(has(&result.objects, "complex-driver.o"));
    assert!(has(&result.symbols, "CONFIG_COMPLEX_DRIVER"));

    let has_container_edge = result.edges.iter().any(|edge| {
        edge.via == "container includes target" && edge.dst.contains("complex-driver.o")
    });
    assert!(
        has_container_edge,
        "Should have container relationship edge"
    );
}

#[test]
fn test_tracer_parent_directory_scanning() {
    let mut tree = SourceTree::new("/work/linux");
    tree.add_file("drivers/submodule/module.c");
    tree.add_makefile("drivers/submodule", "obj-y += module.o");
    let parent_content = r#"
obj-$(CONFIG_PARENT_MODULE) += submodule/
obj-$(CONFIG_PARENT_MODULE) += submodule/module.o
"#;
    tree.add_makefile("drivers", parent_content);

    let result = trace_kernel_config("drivers/submodule/module.c", &tree);

    assert!(has(&result.symbols, "CONFIG_PARENT_MODULE"));
}

#[test]
fn test_tracer_missing_file() {
    let tree = SourceTree::new("/work/linux");

    let result = trace_kernel_config("nonexistent/file.c", &tree);

    assert!(result.error.is_some());
    assert!(result.error.as_ref().unwrap().contains("File not found"));
    assert!(result.symbols.is_empty());
    assert!(result.objects.is_empty());
}

#[test]
fn test_tracer_with_makefile_files() {
    let mut tree = SourceTree::new("/work/linux");
    tree.add_file("drivers/makefile_test/makefile_module.c");
    let makefile_content = r#"
obj-$(CONFIG_MAKEFILE_MODULE) += makefile_module.o
"#;
    tree.add_makefile("drivers/makefile_test", makefile_content);

    let result = trace_kernel_config("drivers/makefile_test/makefile_module.c", &tree);

    assert!(has(&result.symbols, "CONFIG_MAKEFILE_MODULE"));
    assert!(has(&result.objects, "makefile_module.o"));
}

#[test]
fn plain_obj_rule_scenario() {
    let mut tree = SourceTree::new("/src");
    tree.add_file("drivers/net/foo.c");
    tree.add_makefile("drivers/net", "obj-$(CONFIG_FOO) += foo.o\n");
    let r = trace_kernel_config("drivers/net/foo.c", &tree);
    assert!(r.error.is_none());
    assert!(has(&r.symbols, "CONFIG_FOO"));
    assert!(has(&r.objects, "foo.o"));
    let e = &r.edges[0];
    assert_eq!(e.src, "foo.o@/src/drivers/net");
    assert_eq!(e.dst, "CONFIG:CONFIG_FOO");
    assert_eq!(e.via, "makefile rule");
}

#[test]
fn composite_object_scenario() {
    let mut tree = SourceTree::new("/src");
    tree.add_file("drivers/x/a.c");
    tree.add_makefile("drivers/x", "obj-$(CONFIG_X) += xdrv.o\nxdrv-objs := a.o b.o\n");
    let r = trace_kernel_config("drivers/x/a.c", &tree);
    assert!(has(&r.symbols, "CONFIG_X"));
    assert!(has(&r.objects, "a.o"));
    assert!(has(&r.objects, "xdrv.o"));
    assert!(r.edges.iter().any(|e| e.via == "container includes target"
        && e.src == "a.o@/src/drivers/x"
        && e.dst == "xdrv.o@/src/drivers/x"));
}

#[test]
fn directory_gate_scenario() {
    let mut tree = SourceTree::new("/src");
    tree.add_file("drivers/sub/m.c");
    tree.add_makefile("drivers", "obj-$(CONFIG_P) += sub/\n");
    tree.add_makefile("drivers/sub", "obj-y += m.o\n");
    let r = trace_kernel_config("drivers/sub/m.c", &tree);
    assert!(has(&r.symbols, "CONFIG_P"));
    assert!(r
        .edges
        .iter()
        .any(|e| e.via == "parent directory gate" && e.dst == "CONFIG:CONFIG_P"));
}

#[test]
fn missing_file_message_names_path() {
    let tree = SourceTree::new("/src");
    let r = trace_kernel_config("./nonexistent/x.c", &tree);
    assert_eq!(
        r.error.as_deref(),
        Some("File not found in source tree: /src/nonexistent/x.c")
    );
    assert!(r.edges.is_empty());
    assert_eq!(r.file, "./nonexistent/x.c");
}

#[test]
fn leading_dot_slash_is_ignored() {
    let mut tree = SourceTree::new("/src");
    tree.add_file("drivers/net/foo.c");
    tree.add_makefile("drivers/net", "obj-$(CONFIG_FOO) += foo.o");
    let r = trace_kernel_config("./drivers/net/foo.c", &tree);
    assert!(r.error.is_none());
    assert!(has(&r.symbols, "CONFIG_FOO"));
}

#[test]
fn trace_result_holds_own_object() {
    let mut tree = SourceTree::new("/src");
    tree.add_file("lib/crc.c");
    let r = trace_kernel_config("lib/crc.c", &tree);
    assert!(r.error.is_none());
    assert!(r.symbols.is_empty());
    assert_eq!(r.objects, vec!["crc.o".to_string()]);
}

#[test]
fn symbols_have_config_shape() {
    let mut tree = SourceTree::new("/src");
    tree.add_file("fs/ext4/inode.c");
    tree.add_makefile(
        "fs/ext4",
        "obj-$(CONFIG_EXT4_FS) += ext4.o\next4-y := inode.o super.o\next4-$(CONFIG_EXT4_FS_POSIX_ACL) += inode.o\nobj-$(config_lower) += inode.o\n",
    );
    tree.add_makefile("fs", "obj-$(CONFIG_EXT4_FS) += ext4/\n");
    let r = trace_kernel_config("fs/ext4/inode.c", &tree);
    assert!(!r.symbols.is_empty());
    for s in &r.symbols {
        assert!(s.starts_with("CONFIG_") && s.len() > 7);
        assert!(s[7..].chars().all(|c| c.is_ascii_uppercase() || c.is_ascii_digit() || c == '_'));
    }
    assert!(has(&r.symbols, "CONFIG_EXT4_FS"));
    assert!(has(&r.symbols, "CONFIG_EXT4_FS_POSIX_ACL"));
}

#[test]
fn tracing_twice_gives_same_sets() {
    let mut tree = SourceTree::new("/src");
    tree.add_file("drivers/x/a.c");
    tree.add_makefile("drivers/x", "obj-$(CONFIG_X) += xdrv.o\nxdrv-objs := a.o b.o\n");
    tree.add_makefile("drivers", "obj-$(CONFIG_DRV) += x/\n");
    let r1 = trace_kernel_config("drivers/x/a.c", &tree);
    let r2 = trace_kernel_config("drivers/x/a.c", &tree);
    let mut s1 = r1.symbols.clone();
    let mut s2 = r2.symbols.clone();
    s1.sort();
    s2.sort();
    assert_eq!(s1, s2);
    let mut o1 = r1.objects.clone();
    let mut o2 = r2.objects.clone();
    o1.sort();
    o2.sort();
    assert_eq!(o1, o2);
}

#[test]
fn makefile_below_file_changes_nothing() {
    let mut tree = SourceTree::new("/src");
    tree.add_file("drivers/x/a.c");
    tree.add_makefile("drivers/x", "obj-$(CONFIG_X) += a.o\n");
    let before = trace_kernel_config("drivers/x/a.c", &tree);
    tree.add_makefile("drivers/x/sub", "obj-$(CONFIG_OTHER) += a.o\n");
    let after = trace_kernel_config("drivers/x/a.c", &tree);
    assert_eq!(before.symbols, after.symbols);
    assert!(before.symbols.iter().all(|s| after.symbols.contains(s)));
}

#[test]
fn root_makefile_is_not_a_gate() {
    let mut tree = SourceTree::new("/src");
    tree.add_file("drivers/foo.c");
    tree.add_makefile("", "obj-$(CONFIG_DRIVERS) += drivers/\n");
    let r = trace_kernel_config("drivers/foo.c", &tree);
    assert!(r.symbols.is_empty());
}

#[test]
fn container_rule_with_module_symbol() {
    let mut tree = SourceTree::new("/src");
    tree.add_file("sound/core/pcm.c");
    tree.add_makefile(
        "sound/core",
        "snd-pcm-objs-$(CONFIG_SND_PCM_DMA) += pcm.o\nobj-$(CONFIG_SND) += snd-pcm.o\n",
    );
    let r = trace_kernel_config("sound/core/pcm.c", &tree);
    assert!(has(&r.objects, "snd-pcm.o"));
    assert!(has(&r.symbols, "CONFIG_SND_PCM_DMA"));
    assert!(has(&r.symbols, "CONFIG_SND"));
}

#[test]
fn continued_lines_are_joined() {
    let mut tree = SourceTree::new("/src");
    tree.add_file("net/core/dev.c");
    tree.add_makefile("net/core", "obj-$(CONFIG_NET) += sock.o \\\n\t\tdev.o \\\n   skbuff.o\n");
    let r = trace_kernel_config("net/core/dev.c", &tree);
    assert!(has(&r.symbols, "CONFIG_NET"));
}

#[test]
fn target_needs_word_boundary() {
    let mut tree = SourceTree::new("/src");
    tree.add_file("drivers/x/a.c");
    tree.add_makefile("drivers/x", "obj-$(CONFIG_A) += xa.o\nobj-$(CONFIG_B) += a.old\n");
    let r = trace_kernel_config("drivers/x/a.c", &tree);
    assert!(r.symbols.is_empty());
}

#[test]
fn later_makefile_for_a_directory_wins() {
    let mut tree = SourceTree::new("/src");
    tree.add_file("drivers/x/a.c");
    tree.add_makefile("drivers/x", "obj-$(CONFIG_OLD) += a.o\n");
    tree.add_makefile("drivers/x", "obj-$(CONFIG_NEW) += a.o\n");
    let r = trace_kernel_config("drivers/x/a.c", &tree);
    assert_eq!(r.symbols, vec!["CONFIG_NEW".to_string()]);
}

#[test]
fn makefile_dirs_lists_root_and_each_level() {
    let dirs = SourceTree::makefile_dirs("./drivers/net/foo.c");
    assert_eq!(dirs, vec!["".to_string(), "drivers".to_string(), "drivers/net".to_string()]);
    assert!(SourceTree::makefile_dirs("  ").is_empty());
}

#[test]
fn own_object_replaces_only_the_suffix() {
    let mut tree = SourceTree::new("/src");
    tree.add_file("lib/a.cx.c");
    let r = trace_kernel_config("lib/a.cx.c", &tree);
    assert!(has(&r.objects, "a.cx.o"));
}
