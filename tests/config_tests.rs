use kcfg_vex::config::DotConfig;

#[test]
fn test_dotconfig_parsing() {
    let config_content = r#"
# Linux/x86 4.19.0 Kernel Configuration
CONFIG_X86=y
CONFIG_64BIT=y
CONFIG_X86_64=y
# CONFIG_X86_32 is not set
CONFIG_SMP=y
CONFIG_MODULE_SUPPORT=m
# CONFIG_BROKEN is not set
    "#;

    let config = DotConfig::from_text(config_content).unwrap();

    assert!(config.is_enabled("CONFIG_X86", false));
    assert!(config.is_enabled("CONFIG_64BIT", false));
    assert!(!config.is_enabled("CONFIG_X86_32", false));
    assert!(!config.is_enabled("CONFIG_BROKEN", false));

    assert!(!config.is_enabled("CONFIG_MODULE_SUPPORT", false));
    assert!(config.is_enabled("CONFIG_MODULE_SUPPORT", true));

    let enabled_set = config.enabled_set(false);
    assert!(enabled_set.iter().any(|s| s == "CONFIG_X86"));
    assert!(enabled_set.iter().any(|s| s == "CONFIG_64BIT"));
    assert!(!enabled_set.iter().any(|s| s == "CONFIG_MODULE_SUPPORT"));

    let enabled_set_with_modules = config.enabled_set(true);
    assert!(enabled_set_with_modules.iter().any(|s| s == "CONFIG_MODULE_SUPPORT"));
}

#[test]
fn test_dotconfig_from_text() {
    let config_content = r#"
CONFIG_TEST=y
# CONFIG_DISABLED is not set
CONFIG_MODULE=m
    "#;

    let config = DotConfig::from_text(config_content).unwrap();

    assert!(config.is_enabled("CONFIG_TEST", false));
    assert!(!config.is_enabled("CONFIG_DISABLED", false));
    assert!(config.is_enabled("CONFIG_MODULE", true));
    assert!(!config.is_enabled("CONFIG_MODULE", false));
}

#[test]
fn enabled_set_keeps_first_order_and_overrides() {
    let c = DotConfig::from_text("CONFIG_A=y\nCONFIG_B=m\nCONFIG_C=n\nCONFIG_A=n\nCONFIG_D=\"str\"\nCONFIG_E=y\n").unwrap();
    assert_eq!(c.enabled_set(true), vec!["CONFIG_B".to_string(), "CONFIG_E".to_string()]);
    assert_eq!(c.enabled_set(false), vec!["CONFIG_E".to_string()]);
    assert!(!c.is_enabled("CONFIG_A", true));
    assert!(!c.is_enabled("CONFIG_D", true));
    assert!(!c.is_enabled("CONFIG_MISSING", true));
}

#[test]
fn is_enabled_implies_in_enabled_set() {
    let c = DotConfig::from_text("CONFIG_A=y\nCONFIG_B=m\n# CONFIG_C is not set\nnoise\n#comment\n").unwrap();
    for sym in ["CONFIG_A", "CONFIG_B", "CONFIG_C", "CONFIG_Z"] {
        if c.is_enabled(sym, true) {
            assert!(c.enabled_set(true).iter().any(|s| s == sym));
        }
    }
    assert_eq!(c.enabled_set(true).len(), 2);
}

#[test]
fn not_set_line_overrides_earlier_value() {
    let c = DotConfig::from_text("CONFIG_A=y\n# CONFIG_A is not set\n").unwrap();
    assert!(!c.is_enabled("CONFIG_A", true));
    assert!(c.enabled_set(true).is_empty());
}

#[test]
fn empty_config_enables_nothing() {
    let c = DotConfig::from_text("").unwrap();
    assert!(c.enabled_set(true).is_empty());
}
