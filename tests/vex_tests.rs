use kcfg_vex::vex::{build_vex, derive_vex_state, vex_file_name, VexEntry};

#[test]
fn test_vex_generation() {
    let entries = vec![
        VexEntry::new(
            "CVE-2023-1234".to_string(),
            "not_affected".to_string(),
            "This vulnerability does not affect the configured kernel".to_string(),
            Some("vulnerable_code_not_present".to_string()),
            vec!["linux-kernel".to_string()],
        ),
        VexEntry::new(
            "CVE-2023-5678".to_string(),
            "under_investigation".to_string(),
            "Impact assessment ongoing".to_string(),
            None,
            vec!["linux-kernel".to_string()],
        ),
    ];

    let vex_doc = build_vex(entries, Some("1.4".to_string()), None);

    assert_eq!(vex_doc.bom_format, "CycloneDX");
    assert_eq!(vex_doc.spec_version, "1.4");
    assert_eq!(vex_doc.version, 1);
    assert_eq!(vex_doc.vulnerabilities.len(), 2);

    let vuln1 = &vex_doc.vulnerabilities[0];
    assert_eq!(vuln1.id, "CVE-2023-1234");
    assert_eq!(vuln1.analysis.state, "not_affected");
    assert_eq!(
        vuln1.analysis.justification,
        Some("vulnerable_code_not_present".to_string())
    );

    let vuln2 = &vex_doc.vulnerabilities[1];
    assert_eq!(vuln2.id, "CVE-2023-5678");
    assert_eq!(vuln2.analysis.state, "under_investigation");
    assert_eq!(vuln2.analysis.justification, None);
}

#[test]
fn build_vex_defaults_and_fields() {
    let e = VexEntry::new(
        "CVE-2024-1".to_string(),
        "affected".to_string(),
        "Enabled symbols: CONFIG_A".to_string(),
        Some("ignored".to_string()),
        vec!["ref-a".to_string(), "ref-b".to_string()],
    );
    let doc = build_vex(vec![e], None, None);
    assert_eq!(doc.spec_version, "1.4");
    assert!(doc.serial_number.starts_with("urn:uuid:"));
    assert_eq!(doc.serial_number.len(), 45);
    let u: Vec<char> = doc.serial_number[9..].chars().collect();
    for (i, ch) in u.iter().enumerate() {
        if i == 8 || i == 13 || i == 18 || i == 23 {
            assert_eq!(*ch, '-');
        } else {
            assert!(ch.is_ascii_digit() || ('a'..='f').contains(ch));
        }
    }
    assert_eq!(u[14], '4');
    assert!(['8', '9', 'a', 'b'].contains(&u[19]));
    assert!(doc.metadata.timestamp.ends_with('Z'));
    let v = &doc.vulnerabilities[0];
    assert_eq!(v.source.name, "NVD");
    assert_eq!(v.source.url, "https://nvid.nist.gov/vuln/detail/CVE-2024-1");
    assert_eq!(v.analysis.justification, None);
    assert_eq!(v.affects.len(), 2);
    assert_eq!(v.affects[1].component_ref, "ref-b");
    let doc2 = build_vex(Vec::new(), None, Some("urn:uuid:fixed".to_string()));
    assert_eq!(doc2.serial_number, "urn:uuid:fixed");
    assert!(doc2.vulnerabilities.is_empty());
}

#[test]
fn serial_numbers_differ() {
    let a = build_vex(Vec::new(), None, None);
    let b = build_vex(Vec::new(), None, None);
    assert_ne!(a.serial_number, b.serial_number);
}

#[test]
fn verdict_scenarios() {
    let union = vec!["CONFIG_A".to_string()];
    assert_eq!(
        derive_vex_state(true, &union),
        ("affected".to_string(), None, "Enabled symbols: CONFIG_A".to_string())
    );
    assert_eq!(
        derive_vex_state(false, &union),
        (
            "not_affected".to_string(),
            Some("code_not_reachable".to_string()),
            "Required symbols present in source but not enabled in provided .config: CONFIG_A"
                .to_string()
        )
    );
    assert_eq!(
        derive_vex_state(false, &Vec::new()),
        (
            "under_investigation".to_string(),
            None,
            "Could not infer enabling symbols for listed programFiles".to_string()
        )
    );
    assert_eq!(derive_vex_state(true, &Vec::new()).0, "under_investigation");
}

#[test]
fn verdict_detail_joins_with_commas() {
    let union = vec!["CONFIG_A".to_string(), "CONFIG_B".to_string(), "CONFIG_C".to_string()];
    assert_eq!(derive_vex_state(true, &union).2, "Enabled symbols: CONFIG_A, CONFIG_B, CONFIG_C");
}

#[test]
fn every_input_gets_one_of_three_states() {
    let unions = vec![Vec::new(), vec!["CONFIG_A".to_string()], vec!["CONFIG_A".to_string(), "CONFIG_B".to_string()]];
    for u in &unions {
        for enabled in [true, false] {
            let (state, just, _) = derive_vex_state(enabled, u);
            let n = ["affected", "not_affected", "under_investigation"]
                .iter()
                .filter(|s| **s == state)
                .count();
            assert_eq!(n, 1);
            assert_eq!(just.is_some(), state == "not_affected");
        }
    }
}

#[test]
fn vex_file_names() {
    assert_eq!(vex_file_name("not_affected"), "vex_not_affected.json");
}
