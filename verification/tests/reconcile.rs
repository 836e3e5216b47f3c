use bendis::model::{Attribute, OverrideEntry, Package, Source};
use bendis::overrides::OverrideSet;
use bendis::reconcile::{
    BenderYml, candidate_of, DotBenderYml, extract_dependencies_from_lock,
    extract_dependencies_from_yml, extract_overrides_from_bender_yml, find_missing_dependencies,
    LockFile, takes_place_of, version_key,
};

fn text(s: &str) -> Option<Attribute> {
    Some(Attribute::Text(s.to_string()))
}

fn git_entry(name: &str, url: &str, version: Option<&str>) -> OverrideEntry {
    OverrideEntry {
        name: name.to_string(),
        git: text(url),
        version: version.and_then(text),
        rev: None,
        path: None,
    }
}

fn path_entry(name: &str, path: &str) -> OverrideEntry {
    OverrideEntry { name: name.to_string(), git: None, version: None, rev: None, path: text(path) }
}

fn set_of(entries: Vec<OverrideEntry>) -> OverrideSet {
    let mut set = OverrideSet::new();
    for e in entries {
        set.insert(e);
    }
    set
}

fn names(set: &OverrideSet) -> Vec<String> {
    (0..set.len()).map(|i| set.entry(i).name.clone()).collect()
}

fn shown(v: &Option<Attribute>) -> Option<String> {
    match v {
        Some(Attribute::Text(s)) => Some(s.clone()),
        Some(Attribute::Other { shown, .. }) => Some(shown.clone()),
        None => None,
    }
}

fn git_package(name: &str, url: &str, version: Option<&str>, revision: Option<&str>) -> Package {
    Package {
        name: name.to_string(),
        revision: revision.map(|s| s.to_string()),
        version: version.map(|s| s.to_string()),
        source: Source::Git(url.to_string()),
        dependencies: Vec::new(),
    }
}

#[test]
fn candidate_of_repository_with_version() {
    let p = git_package("axi", "https://github.com/pulp-platform/axi", Some("0.39.1"), Some("deadbeef"));
    let e = candidate_of(&p);
    assert_eq!(e.name, "axi");
    assert_eq!(shown(&e.git).unwrap(), "git@code.ihep.ac.cn:heris/heris-platform/axi");
    assert_eq!(shown(&e.version).unwrap(), "0.39.1");
    assert!(e.rev.is_none());
    assert!(e.path.is_none());
}

#[test]
fn candidate_of_repository_with_revision_only() {
    let p = git_package("apb", "https://example.org/apb.git", None, Some("deadbeef"));
    let e = candidate_of(&p);
    assert_eq!(shown(&e.git).unwrap(), "https://example.org/apb.git");
    assert!(e.version.is_none());
    assert_eq!(shown(&e.rev).unwrap(), "deadbeef");
}

#[test]
fn candidate_of_repository_with_neither() {
    let e = candidate_of(&git_package("apb", "u", None, None));
    assert!(e.version.is_none() && e.rev.is_none() && e.path.is_none());
    assert_eq!(shown(&e.git).unwrap(), "u");
}

#[test]
fn candidate_of_local_directory() {
    let p = Package {
        name: "pads".to_string(),
        revision: Some("r".to_string()),
        version: Some("1.0".to_string()),
        source: Source::Path("hw/pads".to_string()),
        dependencies: vec!["axi".to_string()],
    };
    let e = candidate_of(&p);
    assert_eq!(shown(&e.path).unwrap(), "hw/pads");
    assert!(e.git.is_none() && e.version.is_none() && e.rev.is_none());
}

#[test]
fn lock_entries_come_out_in_name_order() {
    let lock = LockFile {
        packages: vec![
            git_package("tech_cells", "https://github.com/pulp-platform/tech_cells_generic", Some("0.2.13"), None),
            git_package("axi", "https://github.com/pulp-platform/axi", Some("0.39.1"), None),
            git_package("common_cells", "https://github.com/pulp-platform/common_cells", None, Some("abc")),
        ],
    };
    let set = extract_dependencies_from_lock(&lock);
    assert_eq!(names(&set), vec!["axi", "common_cells", "tech_cells"]);
    assert_eq!(
        shown(&set.get("tech_cells").unwrap().git).unwrap(),
        "git@code.ihep.ac.cn:heris/heris-platform/tech_cells_generic"
    );
}

#[test]
fn later_package_of_a_name_counts() {
    let lock = LockFile {
        packages: vec![git_package("axi", "first", None, None), git_package("axi", "second", None, None)],
    };
    let set = extract_dependencies_from_lock(&lock);
    assert_eq!(set.len(), 1);
    assert_eq!(shown(&set.get("axi").unwrap().git).unwrap(), "second");
}

#[test]
fn manifest_names_are_taken_over() {
    let yml = BenderYml { dependencies: Some(vec!["b".to_string(), "a".to_string()]) };
    assert_eq!(extract_dependencies_from_yml(&yml), vec!["b", "a"]);
    assert!(extract_dependencies_from_yml(&BenderYml { dependencies: None }).is_empty());
}

#[test]
fn declared_overrides_are_taken_over() {
    let data = DotBenderYml { overrides: Some(set_of(vec![path_entry("x", "hw/x")])) };
    let set = extract_overrides_from_bender_yml(&data);
    assert_eq!(names(&set), vec!["x"]);
    assert!(extract_overrides_from_bender_yml(&DotBenderYml { overrides: None }).is_empty());
}

#[test]
fn new_name_is_added() {
    let lock = set_of(vec![git_entry("axi", "u", Some("1.0"))]);
    let delta = find_missing_dependencies(&lock, &Vec::new(), &OverrideSet::new());
    assert_eq!(names(&delta), vec!["axi"]);
    assert_eq!(shown(&delta.get("axi").unwrap().version).unwrap(), "1.0");
}

#[test]
fn direct_dependency_is_never_overridden() {
    let lock = set_of(vec![
        git_entry("axi", "u", Some("9.9")),
        git_entry("apb", "v", Some("1.0")),
        path_entry("pads", "hw/pads"),
    ]);
    let direct = vec!["axi".to_string(), "pads".to_string()];
    for existing in [
        OverrideSet::new(),
        set_of(vec![git_entry("axi", "u", Some("0.1")), path_entry("pads", "old")]),
        set_of(vec![path_entry("axi", "hw/axi")]),
    ] {
        let delta = find_missing_dependencies(&lock, &direct, &existing);
        assert_eq!(names(&delta), vec!["apb"]);
    }
}

#[test]
fn never_downgrades() {
    let lock = set_of(vec![git_entry("n", "u", Some("1.5"))]);
    let existing = set_of(vec![git_entry("n", "u", Some("2.0"))]);
    let delta = find_missing_dependencies(&lock, &Vec::new(), &existing);
    assert!(delta.is_empty());
}

#[test]
fn equal_version_is_not_added_again() {
    let lock = set_of(vec![git_entry("n", "u", Some("1.2"))]);
    let existing = set_of(vec![git_entry("n", "other", Some("1.2.0"))]);
    assert!(find_missing_dependencies(&lock, &Vec::new(), &existing).is_empty());
}

#[test]
fn newer_version_takes_the_place() {
    let lock = set_of(vec![git_entry("n", "new", Some("0.10.0"))]);
    let existing = set_of(vec![git_entry("n", "old", Some("0.9.7"))]);
    let delta = find_missing_dependencies(&lock, &Vec::new(), &existing);
    assert_eq!(names(&delta), vec!["n"]);
    assert_eq!(shown(&delta.get("n").unwrap().git).unwrap(), "new");
}

#[test]
fn version_against_no_version() {
    let with = set_of(vec![git_entry("n", "u", Some("0.0.1"))]);
    let without = set_of(vec![git_entry("n", "u", None)]);
    assert_eq!(names(&find_missing_dependencies(&with, &Vec::new(), &without)), vec!["n"]);
    assert!(find_missing_dependencies(&without, &Vec::new(), &with).is_empty());
    assert!(find_missing_dependencies(&without, &Vec::new(), &without).is_empty());
}

#[test]
fn repository_takes_the_place_of_a_path() {
    let existing = set_of(vec![path_entry("n", "x")]);
    for version in [None, Some("0.0.0"), Some("7.1")] {
        let lock = set_of(vec![git_entry("n", "u", version)]);
        let delta = find_missing_dependencies(&lock, &Vec::new(), &existing);
        assert_eq!(names(&delta), vec!["n"]);
        assert_eq!(shown(&delta.get("n").unwrap().git).unwrap(), "u");
        assert_eq!(shown(&delta.get("n").unwrap().version), version.map(|s| s.to_string()));
    }
}

#[test]
fn path_never_takes_a_place() {
    let lock = set_of(vec![path_entry("n", "new")]);
    assert!(find_missing_dependencies(&lock, &Vec::new(), &set_of(vec![path_entry("n", "old")])).is_empty());
    assert!(find_missing_dependencies(&lock, &Vec::new(), &set_of(vec![git_entry("n", "u", None)])).is_empty());
}

#[test]
fn number_is_compared_by_its_decimal_fraction() {
    let mut declared = git_entry("n", "u", None);
    declared.version = Some(Attribute::Other { shown: "1".to_string(), decimal: Some("1".to_string()) });
    assert_eq!(version_key(&declared), Some("1".to_string()));
    assert!(takes_place_of(&git_entry("n", "u", Some("1.0.1")), &declared));
    assert!(!takes_place_of(&git_entry("n", "u", Some("1.0")), &declared));
    declared.version = Some(Attribute::Other { shown: "Bool(true)".to_string(), decimal: None });
    assert_eq!(version_key(&declared), None);
    assert!(takes_place_of(&git_entry("n", "u", Some("0")), &declared));
}

#[test]
fn result_does_not_depend_on_the_order_of_insertion() {
    let a = set_of(vec![git_entry("b", "1", None), git_entry("a", "2", None), git_entry("c", "3", None)]);
    let b = set_of(vec![git_entry("c", "3", None), git_entry("b", "1", None), git_entry("a", "2", None)]);
    let da = find_missing_dependencies(&a, &Vec::new(), &OverrideSet::new());
    let db = find_missing_dependencies(&b, &Vec::new(), &OverrideSet::new());
    assert_eq!(names(&da), vec!["a", "b", "c"]);
    assert_eq!(names(&da), names(&db));
}

#[test]
fn set_replaces_on_the_same_name_and_finds() {
    let mut set = OverrideSet::new();
    assert!(set.is_empty());
    set.insert(git_entry("m", "1", None));
    set.insert(git_entry("a", "2", None));
    set.insert(git_entry("z", "3", None));
    set.insert(git_entry("m", "4", None));
    assert_eq!(set.len(), 3);
    assert_eq!(names(&set), vec!["a", "m", "z"]);
    assert_eq!(set.find("m"), Some(1));
    assert_eq!(set.find("q"), None);
    assert!(set.contains_key("z"));
    assert!(!set.contains_key(""));
    assert_eq!(shown(&set.get("m").unwrap().git).unwrap(), "4");
    let merged = set.merge(&set_of(vec![git_entry("a", "5", None), git_entry("b", "6", None)]));
    assert_eq!(names(&merged), vec!["a", "b", "m", "z"]);
    assert_eq!(shown(&merged.get("a").unwrap().git).unwrap(), "5");
    assert_eq!(names(&set.duplicate()), names(&set));
}

#[test]
fn source_of_a_lock_entry() {
    assert!(matches!(Source::from_keys(Some("u".to_string()), None), Ok(Source::Git(u)) if u == "u"));
    assert!(matches!(Source::from_keys(None, Some("p".to_string())), Ok(Source::Path(p)) if p == "p"));
    let expected = "Expected 'Git' or 'Path' key in source";
    assert!(matches!(Source::from_keys(None, None), Err(e) if e == expected));
    assert!(matches!(Source::from_keys(Some("u".to_string()), Some("p".to_string())), Err(e) if e == expected));
}

#[test]
fn second_run_adds_nothing() {
    let lock = set_of(vec![
        git_entry("a", "u", Some("2.0")),
        git_entry("b", "v", None),
        path_entry("c", "hw/c"),
        git_entry("d", "w", Some("1.0")),
    ]);
    let declared = set_of(vec![
        git_entry("a", "old", Some("1.0")),
        path_entry("b", "hw/b"),
        git_entry("d", "w", Some("1.5")),
    ]);
    let direct = vec!["e".to_string()];
    let delta = find_missing_dependencies(&lock, &direct, &declared);
    assert_eq!(names(&delta), vec!["a", "b", "c"]);
    let merged = declared.merge(&delta);
    assert!(find_missing_dependencies(&lock, &direct, &merged).is_empty());
}
