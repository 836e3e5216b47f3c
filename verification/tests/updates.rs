use bendis::updates::{check_for_updates, is_newer_version, parse_bender_version};

#[test]
fn newer_is_by_dictionary_order() {
    assert!(is_newer_version("0.3.1", "0.3.0"));
    assert!(!is_newer_version("0.3.0", "0.3.0"));
    assert!(!is_newer_version("0.3.0", "0.3.1"));
    assert!(!is_newer_version("0.10.0", "0.9.0"));
    assert!(is_newer_version("0.3.0.1", "0.3.0"));
    assert!(is_newer_version("a", ""));
}

#[test]
fn both_tools_have_an_update() {
    let updates = check_for_updates(
        "0.3.0",
        Some("0.3.1".to_string()),
        Some("0.28.0".to_string()),
        Some("0.29.0".to_string()),
    );
    assert_eq!(updates.len(), 2);
    assert_eq!(updates[0].crate_name, "bendis");
    assert_eq!(updates[0].current, "0.3.0");
    assert_eq!(updates[0].latest, "0.3.1");
    assert_eq!(updates[1].crate_name, "bender");
    assert_eq!(updates[1].current, "0.28.0");
    assert_eq!(updates[1].latest, "0.29.0");
}

#[test]
fn no_update_where_nothing_is_newer_or_known() {
    assert!(check_for_updates("0.3.0", Some("0.3.0".to_string()), None, Some("9".to_string())).is_empty());
    assert!(check_for_updates("0.3.0", None, Some("0.28.0".to_string()), None).is_empty());
    assert!(check_for_updates("0.3.0", Some("0.2.9".to_string()), Some("1".to_string()), Some("0".to_string())).is_empty());
}

#[test]
fn resolver_alone_has_an_update() {
    let updates = check_for_updates("0.3.0", None, Some("0.28.0".to_string()), Some("0.28.1".to_string()));
    assert_eq!(updates.len(), 1);
    assert_eq!(updates[0].crate_name, "bender");
}

#[test]
fn version_that_the_resolver_reports() {
    assert_eq!(parse_bender_version("bender 0.29.0\n"), Some("0.29.0".to_string()));
    assert_eq!(parse_bender_version("  bender\t0.29.0 extra"), Some("0.29.0".to_string()));
    assert_eq!(parse_bender_version("bender"), None);
    assert_eq!(parse_bender_version(""), None);
}
