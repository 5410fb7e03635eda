use kcfg_vex::advisory::{
    decimal_exec, extract_cve_ids_from_yocto, extract_program_files_from_cve,
    load_sbom_component_refs,
};
use kcfg_vex::error::KcfgVexError;
use kcfg_vex::json::JsonValue;

fn s(x: &str) -> JsonValue {
    JsonValue::Str(x.to_string())
}

fn obj(members: Vec<(&str, JsonValue)>) -> JsonValue {
    JsonValue::Object(members.into_iter().map(|(k, v)| (k.to_string(), v)).collect())
}

fn cve_with(affected: Vec<JsonValue>) -> JsonValue {
    obj(vec![(
        "containers",
        obj(vec![("cna", obj(vec![("affected", JsonValue::Array(affected))]))]),
    )])
}

#[test]
fn program_files_sorted_deduplicated_and_stripped() {
    let doc = cve_with(vec![
        obj(vec![(
            "programFiles",
            JsonValue::Array(vec![s("./net/ipv4/tcp.c"), s("drivers/a.c"), JsonValue::Null]),
        )]),
        obj(vec![("vendor", s("Linux"))]),
        obj(vec![("programFiles", JsonValue::Array(vec![s("net/ipv4/tcp.c"), s("././b.c")]))]),
    ]);
    let files = extract_program_files_from_cve(&doc);
    assert_eq!(files, vec!["b.c".to_string(), "drivers/a.c".to_string(), "net/ipv4/tcp.c".to_string()]);
}

#[test]
fn program_files_of_other_shapes_are_empty() {
    assert!(extract_program_files_from_cve(&JsonValue::Null).is_empty());
    let doc = obj(vec![("containers", obj(vec![("cna", obj(vec![("affected", s("x"))]))]))]);
    assert!(extract_program_files_from_cve(&doc).is_empty());
}

fn package(products: Vec<&str>, issues: Vec<(&str, Option<&str>)>) -> JsonValue {
    obj(vec![
        (
            "products",
            JsonValue::Array(products.into_iter().map(|p| obj(vec![("product", s(p))])).collect()),
        ),
        (
            "issue",
            JsonValue::Array(
                issues
                    .into_iter()
                    .map(|(id, st)| match st {
                        Some(st) => obj(vec![("id", s(id)), ("status", s(st))]),
                        None => obj(vec![("id", s(id))]),
                    })
                    .collect(),
            ),
        ),
    ])
}

#[test]
fn summary_ids_split_by_status() {
    let doc = obj(vec![(
        "package",
        JsonValue::Array(vec![
            package(
                vec!["linux_kernel"],
                vec![
                    ("CVE-2024-2", Some("Unpatched")),
                    ("CVE-2024-1", Some("Patched")),
                    ("GHSA-1", Some("Unpatched")),
                    ("CVE-2024-3", None),
                ],
            ),
            package(vec!["busybox"], vec![("CVE-2024-9", Some("Unpatched"))]),
            package(vec!["other", "linux_kernel"], vec![("CVE-2024-2", Some("Unpatched"))]),
        ]),
    )]);
    let ids = extract_cve_ids_from_yocto(&doc);
    assert_eq!(ids.remaining_cves, vec!["CVE-2024-2".to_string(), "CVE-2024-3".to_string()]);
    assert_eq!(ids.patched_cves, vec!["CVE-2024-1".to_string()]);
}

#[test]
fn summary_without_packages_is_empty() {
    let ids = extract_cve_ids_from_yocto(&obj(vec![]));
    assert!(ids.remaining_cves.is_empty());
    assert!(ids.patched_cves.is_empty());
}

#[test]
fn sbom_must_be_cyclonedx() {
    let r = load_sbom_component_refs(&obj(vec![("bomFormat", s("SPDX"))]));
    match r {
        Err(KcfgVexError::InvalidConfig(m)) => assert_eq!(m, "SBOM is not CycloneDX JSON"),
        _ => panic!("expected an error"),
    }
}

#[test]
fn sbom_refs_for_kernel_components() {
    let doc = obj(vec![
        ("bomFormat", s("CycloneDX")),
        ("serialNumber", s("urn:uuid:1234-abcd")),
        ("version", JsonValue::Number(Some(7))),
        (
            "components",
            JsonValue::Array(vec![
                obj(vec![("name", s("linux_kernel")), ("bom-ref", s("kref"))]),
                obj(vec![("name", s("busybox")), ("bom-ref", s("bref"))]),
                obj(vec![("name", s("linux_kernel")), ("purl", s("pkg:yocto/linux"))]),
                obj(vec![("name", s("linux_kernel")), ("bomRef", JsonValue::Number(Some(3)))]),
            ]),
        ),
    ]);
    let refs = load_sbom_component_refs(&doc).unwrap();
    assert_eq!(
        refs,
        vec![
            "urn:cdx:1234-abcd/7#kref".to_string(),
            "urn:cdx:1234-abcd/7#pkg:yocto/linux".to_string(),
            "urn:cdx:1234-abcd/7#kernel".to_string(),
        ]
    );
}

#[test]
fn sbom_without_kernel_gets_synthetic_ref() {
    let doc = obj(vec![("bomFormat", s("CycloneDX"))]);
    assert_eq!(load_sbom_component_refs(&doc).unwrap(), vec!["urn:cdx:unknown/1#kernel".to_string()]);
}

#[test]
fn decimal_digits() {
    assert_eq!(decimal_exec(0).iter().collect::<String>(), "0");
    assert_eq!(decimal_exec(1024).iter().collect::<String>(), "1024");
    assert_eq!(decimal_exec(u64::MAX).iter().collect::<String>(), "18446744073709551615");
}
