use bendis::gitignore::{
    check_bendis_gitignore, default_gitignore_content, ensure_bendis_workspace_gitignore_entries,
    ensure_root_gitignore_excludes_hw_target,
};

const HEADER: &str = "\n# Auto-managed by bendis\n# WARNING: Do not remove the entries below, they are required for proper git tracking\n# You can add your own entries after this section\n";

fn dirs(names: &[&str]) -> Vec<String> {
    names.iter().map(|s| s.to_string()).collect()
}

#[test]
fn default_ignore_file_is_in_order() {
    assert_eq!(
        default_gitignore_content(),
        "# Auto-managed by bendis\n# WARNING: Do not remove the entries below, they are required for proper git tracking\n# You can add your own entries after this section\n\n.bender/\n\n"
    );
    assert_eq!(check_bendis_gitignore(&default_gitignore_content()), Ok(()));
}

#[test]
fn required_entry_may_stand_between_white_space() {
    assert_eq!(check_bendis_gitignore("x\n \t.bender/  \r\ny"), Ok(()));
}

#[test]
fn missing_required_entry_is_named() {
    let expected = Err("Missing required entries in bendis_workspace/.gitignore: .bender/".to_string());
    assert_eq!(check_bendis_gitignore(""), expected);
    assert_eq!(check_bendis_gitignore(".bender\n# .bender/\n.bender/x\n"), expected);
}

#[test]
fn missing_entries_are_added_below_a_header() {
    let out = ensure_bendis_workspace_gitignore_entries(".bender/\nhw/\n", &dirs(&["hw", "target", "ip"]));
    assert_eq!(out, Some(format!(".bender/\nhw/\n{}target/\nip/\n", HEADER)));
}

#[test]
fn entries_are_added_to_a_missing_file() {
    let out = ensure_bendis_workspace_gitignore_entries("", &dirs(&["hw"]));
    assert_eq!(out, Some(format!("{}hw/\n", HEADER)));
}

#[test]
fn nothing_is_added_where_all_is_listed() {
    assert_eq!(ensure_bendis_workspace_gitignore_entries("  hw/ \ntarget/", &dirs(&["hw", "target"])), None);
    assert_eq!(ensure_bendis_workspace_gitignore_entries("anything", &dirs(&[])), None);
}

#[test]
fn mirrored_directories_are_taken_out_of_the_project_file() {
    let out = ensure_root_gitignore_excludes_hw_target("build/\n hw/ \ntarget/\n*.log\n", &dirs(&["hw", "target"]));
    assert_eq!(out, Some("build/\n*.log\n".to_string()));
}

#[test]
fn project_file_without_such_lines_stays() {
    assert_eq!(ensure_root_gitignore_excludes_hw_target("build/\n*.log\n", &dirs(&["hw", "target"])), None);
    assert_eq!(ensure_root_gitignore_excludes_hw_target("build/\n*.log", &dirs(&["hw"])), None);
    assert_eq!(ensure_root_gitignore_excludes_hw_target("", &dirs(&["hw"])), None);
    assert_eq!(ensure_root_gitignore_excludes_hw_target("hw\nhw/x\n", &dirs(&["hw"])), None);
}

#[test]
fn project_file_with_other_line_ends_is_written_anew() {
    assert_eq!(
        ensure_root_gitignore_excludes_hw_target("a\r\nb\r\n", &dirs(&["hw"])),
        Some("a\nb\n".to_string())
    );
    assert_eq!(ensure_root_gitignore_excludes_hw_target("hw/", &dirs(&["hw"])), Some("\n".to_string()));
}
