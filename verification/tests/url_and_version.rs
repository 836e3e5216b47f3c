use bendis::url::convert_url;
use bendis::version::compare_versions;

#[test]
fn upstream_address_goes_to_the_mirror() {
    assert_eq!(
        convert_url("https://github.com/pulp-platform/axi"),
        "git@code.ihep.ac.cn:heris/heris-platform/axi"
    );
    assert_eq!(
        convert_url("https://github.com/pulp-platform/common_cells.git"),
        "git@code.ihep.ac.cn:heris/heris-platform/common_cells.git"
    );
}

#[test]
fn other_address_stays() {
    assert_eq!(convert_url("https://github.com/openhwgroup/cva6"), "https://github.com/openhwgroup/cva6");
    assert_eq!(convert_url(""), "");
}

#[test]
fn rewriting_twice_changes_nothing_more() {
    for url in [
        "https://github.com/pulp-platform/axi",
        "git@github.com/pulp-platform",
        "https://github.com/pulp-platform/",
        "plain",
    ] {
        let once = convert_url(url);
        assert_eq!(convert_url(&once), once);
    }
}

#[test]
fn absent_version_is_least() {
    assert_eq!(compare_versions(&None, &None), 0);
    assert_eq!(compare_versions(&None, &Some("0".to_string())), -1);
    assert_eq!(compare_versions(&Some("0".to_string()), &None), 1);
}

#[test]
fn versions_compare_by_number() {
    let v = |s: &str| Some(s.to_string());
    assert_eq!(compare_versions(&v("1.2"), &v("1.2.0")), 0);
    assert_eq!(compare_versions(&v("2.0"), &v("1.9.9")), 1);
    assert_eq!(compare_versions(&v("1.9.9"), &v("2.0")), -1);
    assert_eq!(compare_versions(&v("0.10.0"), &v("0.9.0")), 1);
    assert_eq!(compare_versions(&v("1.2.0-rc1"), &v("1.2.0")), 0);
    assert_eq!(compare_versions(&v("1.+3"), &v("1.3")), 0);
    assert_eq!(compare_versions(&v("1.-3"), &v("1.0")), 0);
    assert_eq!(compare_versions(&v("1.4294967295"), &v("1.4294967294")), 1);
    assert_eq!(compare_versions(&v("1.4294967296"), &v("1.0")), 1);
    assert_eq!(compare_versions(&v("4294967296"), &v("1")), 1);
    assert_eq!(compare_versions(&v("1"), &v("4294967296")), -1);
    assert_eq!(compare_versions(&v("18446744073709551616"), &v("18446744073709551615")), 1);
    assert_eq!(compare_versions(&v("99999999999999999999999999"), &v("100000000000000000000000000")), -1);
    assert_eq!(compare_versions(&v("000000000000000000000000007"), &v("7")), 0);
    assert_eq!(compare_versions(&v("20241231235959"), &v("20241231235958")), 1);
    assert_eq!(compare_versions(&v(""), &v("0.0")), 0);
}

#[test]
fn order_of_versions_is_total_and_transitive() {
    let versions: Vec<Option<String>> = [None, Some(""), Some("0"), Some("0.0.1"), Some("1"), Some("1.0"), Some("1.a"), Some("1.2"), Some("1.10"), Some("2.0-rc1"), Some("10")]
        .iter()
        .map(|v| v.map(|s: &str| s.to_string()))
        .collect();
    for a in &versions {
        assert_eq!(compare_versions(a, a), 0);
        for b in &versions {
            let ab = compare_versions(a, b);
            assert!((-1..=1).contains(&ab));
            assert_eq!(ab, -compare_versions(b, a));
            for c in &versions {
                if ab <= 0 && compare_versions(b, c) <= 0 {
                    assert!(compare_versions(a, c) <= 0);
                }
            }
        }
    }
}
