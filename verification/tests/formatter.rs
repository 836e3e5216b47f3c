use bendis::formatter::{
    format_dependency_line, generate_overrides_lines, head_of, measure, tail_of,
    update_bender_yml_overrides,
};
use bendis::model::{Attribute, OverrideEntry};
use bendis::overrides::OverrideSet;

fn text(s: &str) -> Option<Attribute> {
    Some(Attribute::Text(s.to_string()))
}

fn entry(name: &str) -> OverrideEntry {
    OverrideEntry { name: name.to_string(), git: None, version: None, rev: None, path: None }
}

fn sample() -> OverrideSet {
    let mut set = OverrideSet::new();
    let mut local = entry("local");
    local.path = text("hw/local");
    set.insert(local);
    let mut cells = entry("common_cells");
    cells.git = text("git@code.ihep.ac.cn:heris/heris-platform/common_cells");
    cells.rev = text("abc123");
    set.insert(cells);
    set.insert(entry("odd"));
    let mut bare = entry("bare");
    bare.git = text("x");
    set.insert(bare);
    let mut axi = entry("axi");
    axi.git = text("git@code.ihep.ac.cn:heris/heris-platform/axi");
    axi.version = text("0.39.1");
    set.insert(axi);
    set
}

const SAMPLE_LINES: [&str; 5] = [
    "  axi:          { git: \"git@code.ihep.ac.cn:heris/heris-platform/axi\",          version: 0.39.1 }",
    "  bare:         { git: \"x                                                       }",
    "  common_cells: { git: \"git@code.ihep.ac.cn:heris/heris-platform/common_cells\", rev: \"abc123\" }",
    "  local:        { path: \"hw/local\"                                             }",
    "  odd:          {}",
];

#[test]
fn lines_are_aligned_and_in_name_order() {
    assert_eq!(generate_overrides_lines(&sample()), SAMPLE_LINES.to_vec());
}

#[test]
fn no_overrides_give_no_lines() {
    assert!(generate_overrides_lines(&OverrideSet::new()).is_empty());
}

#[test]
fn one_line_with_given_widths() {
    let set = sample();
    let axi = set.get("axi").unwrap();
    assert_eq!(format_dependency_line("axi", axi, 12, 63), SAMPLE_LINES[0]);
    assert_eq!(
        format_dependency_line("axi", axi, 2, 5),
        "  axi: { git: \"git@code.ihep.ac.cn:heris/heris-platform/axi\", version: 0.39.1 }"
    );
    assert_eq!(format_dependency_line("other", set.get("odd").unwrap(), 0, 0), "  other: {}");
}

#[test]
fn parts_of_a_line() {
    let set = sample();
    assert_eq!(head_of(set.get("local").unwrap()), "{ path: \"hw/local\" ");
    assert_eq!(tail_of(set.get("local").unwrap()), "}");
    assert_eq!(measure(set.get("local").unwrap()), 19);
    assert_eq!(head_of(set.get("bare").unwrap()), "{ git: \"x");
    assert_eq!(tail_of(set.get("bare").unwrap()), " }");
    assert_eq!(measure(set.get("bare").unwrap()), 9);
    assert_eq!(tail_of(set.get("common_cells").unwrap()), " rev: \"abc123\" }");
    assert_eq!(measure(set.get("common_cells").unwrap()), 63);
    assert_eq!(head_of(set.get("odd").unwrap()), "");
    assert_eq!(measure(set.get("odd").unwrap()), 0);
}

#[test]
fn path_comes_before_repository() {
    let mut both = entry("n");
    both.path = text("p");
    both.git = text("g");
    both.version = text("1");
    assert_eq!(format_dependency_line("n", &both, 1, 0), "  n: { path: \"p\" }");
}

#[test]
fn version_that_is_a_number_is_written_as_shown() {
    let mut e = entry("n");
    e.git = text("g");
    e.version = Some(Attribute::Other { shown: "1.50".to_string(), decimal: Some("1.5".to_string()) });
    assert_eq!(format_dependency_line("n", &e, 1, 0), "  n: { git: \"g\", version: 1.50 }");
    e.version = Some(Attribute::Other { shown: "Bool(true)".to_string(), decimal: None });
    assert_eq!(format_dependency_line("n", &e, 1, 0), "  n: { git: \"g\", version: Bool(true) }");
}

#[test]
fn revision_that_is_no_string_counts_for_the_width_only() {
    let mut e = entry("n");
    e.git = text("g");
    e.rev = Some(Attribute::Other { shown: "7".to_string(), decimal: Some("7".to_string()) });
    assert_eq!(head_of(&e), "{ git: \"g");
    assert_eq!(measure(&e), 11);
    let mut set = OverrideSet::new();
    set.insert(e);
    assert_eq!(generate_overrides_lines(&set), vec!["  n: { git: \"g   }"]);
}

#[test]
fn source_that_is_no_string_gives_empty_braces() {
    let mut e = entry("n");
    e.git = Some(Attribute::Other { shown: "5".to_string(), decimal: Some("5".to_string()) });
    e.version = text("1.0");
    assert_eq!(format_dependency_line("n", &e, 3, 9), "  n:   {}");
    assert_eq!(measure(&e), 0);
}

#[test]
fn widths_are_counted_in_bytes() {
    let mut set = OverrideSet::new();
    let mut a = entry("é");
    a.path = text("ü");
    set.insert(a);
    let mut b = entry("ab");
    b.git = text("g");
    b.version = text("1");
    set.insert(b);
    assert_eq!(
        generate_overrides_lines(&set),
        vec!["  ab: { git: \"g\",   version: 1 }", "  é: { path: \"ü\" }"]
    );
}

fn axi(version: &str) -> OverrideSet {
    let mut set = OverrideSet::new();
    let mut axi = entry("axi");
    axi.git = text("git@code.ihep.ac.cn:heris/heris-platform/axi");
    axi.version = text(version);
    set.insert(axi);
    set
}

const AXI_LINE: &str =
    "  axi: { git: \"git@code.ihep.ac.cn:heris/heris-platform/axi\", version: 0.39.1 }";

#[test]
fn nothing_to_write_leaves_the_text() {
    let text = "# note\r\noverrides:\n  old: { path: \"x\" }\n\n";
    assert_eq!(update_bender_yml_overrides(text, &OverrideSet::new(), &OverrideSet::new()), text);
    assert_eq!(update_bender_yml_overrides("", &OverrideSet::new(), &OverrideSet::new()), "");
}

#[test]
fn block_is_appended_to_an_empty_text() {
    let out = update_bender_yml_overrides("", &OverrideSet::new(), &axi("0.39.1"));
    assert_eq!(out, format!("\noverrides:\n{}", AXI_LINE));
    assert_eq!(out.trim_start_matches('\n'), ["overrides:", AXI_LINE].join("\n"));
    assert_eq!(update_bender_yml_overrides(&out, &axi("0.39.1"), &OverrideSet::new()), out);
}

#[test]
fn block_is_appended_where_there_is_none() {
    let out = update_bender_yml_overrides("# a\nplugins:\n  x: y\n", &OverrideSet::new(), &axi("0.39.1"));
    assert_eq!(out, format!("# a\nplugins:\n  x: y\n\noverrides:\n{}", AXI_LINE));
}

#[test]
fn block_is_appended_behind_an_unfinished_line() {
    let out = update_bender_yml_overrides("# a", &OverrideSet::new(), &axi("0.39.1"));
    assert_eq!(out, format!("# a\n\noverrides:\n{}", AXI_LINE));
}

#[test]
fn block_is_replaced_in_its_place() {
    let text = "# head\noverrides:\n  old:   { path: \"x\" }\n\n\t# inside\n  more: {}\nplugins:\n  keep: me\n";
    let out = update_bender_yml_overrides(text, &OverrideSet::new(), &axi("0.39.1"));
    assert_eq!(out, format!("# head\noverrides:\n{}\nplugins:\n  keep: me\n", AXI_LINE));
}

#[test]
fn block_at_the_end_is_replaced() {
    let out = update_bender_yml_overrides("a: b\noverrides:\n  old: {}", &OverrideSet::new(), &axi("0.39.1"));
    assert_eq!(out, format!("a: b\noverrides:\n{}", AXI_LINE));
    let out = update_bender_yml_overrides("a: b\noverrides:\n  old: {}\n", &OverrideSet::new(), &axi("0.39.1"));
    assert_eq!(out, format!("a: b\noverrides:\n{}\n", AXI_LINE));
    let out = update_bender_yml_overrides("a: b\noverrides:\n  old: {}\n\n\n", &OverrideSet::new(), &axi("0.39.1"));
    assert_eq!(out, format!("a: b\noverrides:\n{}\n", AXI_LINE));
}

#[test]
fn header_line_with_more_on_it_opens_a_block() {
    let out = update_bender_yml_overrides("overrides: {}\nz: 1", &OverrideSet::new(), &axi("0.39.1"));
    assert_eq!(out, format!("overrides:\n{}\nz: 1", AXI_LINE));
}

#[test]
fn indented_header_is_no_header() {
    let out = update_bender_yml_overrides("x:\n  overrides:\n", &OverrideSet::new(), &axi("0.39.1"));
    assert_eq!(out, format!("x:\n  overrides:\n\noverrides:\n{}", AXI_LINE));
}

#[test]
fn every_block_is_replaced() {
    let out = update_bender_yml_overrides("overrides:\n a\nb\noverrides:\n c", &OverrideSet::new(), &axi("0.39.1"));
    assert_eq!(out, format!("overrides:\n{}\nb\noverrides:\n{}", AXI_LINE, AXI_LINE));
}

#[test]
fn new_override_takes_the_place_of_the_declared_one() {
    let out = update_bender_yml_overrides("overrides:\n  axi: old\n", &axi("0.38.0"), &axi("0.39.1"));
    assert_eq!(out, format!("overrides:\n{}\n", AXI_LINE));
}

#[test]
fn empty_delta_writes_the_declared_overrides_again() {
    let text = "# my overrides\npackage:\n  name: top\noverrides:\n  local: { path: \"hw/local\" }\n  axi: 1\n\nworkspace:\n  checkout_dir: deps\n";
    let out = update_bender_yml_overrides(text, &sample(), &OverrideSet::new());
    let expected = format!(
        "# my overrides\npackage:\n  name: top\noverrides:\n{}\nworkspace:\n  checkout_dir: deps\n",
        SAMPLE_LINES.join("\n")
    );
    assert_eq!(out, expected);
    assert_eq!(update_bender_yml_overrides(&out, &sample(), &OverrideSet::new()), out);
}

#[test]
fn carriage_returns_outside_the_block_are_kept() {
    let out = update_bender_yml_overrides("a\r\nb\r\n", &OverrideSet::new(), &axi("0.39.1"));
    assert_eq!(out, format!("a\r\nb\r\n\noverrides:\n{}", AXI_LINE));
    let out = update_bender_yml_overrides(
        "x\r\noverrides:\r\n  a: {}\r\n\r\ny: 1\r\n\r\n",
        &OverrideSet::new(),
        &axi("0.39.1"),
    );
    assert_eq!(out, format!("x\r\noverrides:\n{}\ny: 1\r\n\r\n", AXI_LINE));
}

#[test]
fn text_outside_the_block_is_kept_to_the_character() {
    let before = "# head \t\n\n\nplugins:   \n\tq: [1,\n   2]\n";
    let after = "workspace:\n\n  checkout_dir: deps  \n# end\n\n";
    let text = format!("{}overrides:  # mine\n  old: {{}}\n\n    # note\n{}", before, after);
    let out = update_bender_yml_overrides(&text, &axi("0.39.1"), &OverrideSet::new());
    assert_eq!(out, format!("{}overrides:\n{}\n{}", before, AXI_LINE, after));
    assert_eq!(update_bender_yml_overrides(&out, &axi("0.39.1"), &OverrideSet::new()), out);
}

#[test]
fn up_to_date_file_comes_back_unchanged() {
    for text in [
        format!("overrides:\n{}\n", AXI_LINE),
        format!("overrides:\n{}", AXI_LINE),
        format!("overrides:\n{}\nplugins:\n", AXI_LINE),
        format!("a: 1\n\noverrides:\n{}\nplugins:\n  x: y", AXI_LINE),
    ] {
        assert_eq!(update_bender_yml_overrides(&text, &axi("0.39.1"), &OverrideSet::new()), text);
    }
}

#[test]
fn header_alone_gets_its_block() {
    let out = update_bender_yml_overrides("overrides:\nplugins:\n", &axi("0.39.1"), &OverrideSet::new());
    assert_eq!(out, format!("overrides:\n{}\nplugins:\n", AXI_LINE));
}
