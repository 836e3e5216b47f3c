//! The rules for the ignore files of the workspace and of the project.

use vstd::prelude::*;
use vstd::string::StringExecFns;
use crate::order::{lemma_text_order_equal, order_of};
use crate::space::{trim, trim_end, trimmed, trimmed_end};
use crate::text::{chars_of, join, join_with, lines, string_of, text_lines, texts, views};

verus! {

/// The ignore file that a new workspace gets.
pub open spec fn default_content() -> Seq<char> {
    "# Auto-managed by bendis\n# WARNING: Do not remove the entries below, they are required for proper git tracking\n# You can add your own entries after this section\n\n.bender/\n\n"@
}

/// What stands above the entries that are added to an ignore file.
pub open spec fn managed_header() -> Seq<char> {
    "\n# Auto-managed by bendis\n# WARNING: Do not remove the entries below, they are required for proper git tracking\n# You can add your own entries after this section\n"@
}

/// The entries that the ignore file of a workspace must hold.
pub open spec fn required_entries() -> Seq<Seq<char>> {
    seq![".bender/"@]
}

/// The lines of `all` without the white space at their ends.
pub open spec fn trimmed_lines(all: Seq<Seq<char>>) -> Seq<Seq<char>> {
    Seq::new(all.len(), |i: int| trimmed(all[i]))
}

/// Those of `entries` that are none of `present`, in their order.
pub open spec fn missing_among(present: Seq<Seq<char>>, entries: Seq<Seq<char>>) -> Seq<
    Seq<char>,
>
    decreases entries.len(),
{
    if entries.len() == 0 {
        Seq::empty()
    } else {
        let rest = missing_among(present, entries.drop_last());
        if present.contains(entries.last()) {
            rest
        } else {
            rest.push(entries.last())
        }
    }
}

/// Those of `entries` that `content` does not list, in their order.
pub open spec fn missing_of(content: Seq<char>, entries: Seq<Seq<char>>) -> Seq<Seq<char>> {
    missing_among(trimmed_lines(text_lines(content)), entries)
}

/// The entries that ignore the directories `dirs`: each name with a `/`
/// behind it.
pub open spec fn entries_of(dirs: Seq<Seq<char>>) -> Seq<Seq<char>> {
    Seq::new(dirs.len(), |i: int| dirs[i] + "/"@)
}

/// The entries written out, each on a line of its own.
pub open spec fn written(entries: Seq<Seq<char>>) -> Seq<char>
    decreases entries.len(),
{
    if entries.len() == 0 {
        Seq::empty()
    } else {
        written(entries.drop_last()) + entries.last() + "\n"@
    }
}

/// Those of `all` that are none of `entries`, white space at their ends
/// aside, in their order.
pub open spec fn kept_lines(all: Seq<Seq<char>>, entries: Seq<Seq<char>>) -> Seq<Seq<char>>
    decreases all.len(),
{
    if all.len() == 0 {
        Seq::empty()
    } else {
        let rest = kept_lines(all.drop_last(), entries);
        if entries.contains(trimmed(all.last())) {
            rest
        } else {
            rest.push(all.last())
        }
    }
}

/// The ignore file that a new workspace gets.
pub fn default_gitignore_content() -> (content: String)
    ensures
        content@ == default_content(),
{
    String::from_str(
        "# Auto-managed by bendis\n# WARNING: Do not remove the entries below, they are required for proper git tracking\n# You can add your own entries after this section\n\n.bender/\n\n",
    )
}

/// Whether `entry` is one of `list`.
fn listed(list: &Vec<Vec<char>>, entry: &Vec<char>) -> (found: bool)
    ensures
        found == views(list@).contains(entry@),
{
    let mut i: usize = 0;
    while i < list.len()
        invariant
            i <= list.len(),
            forall|k: int| 0 <= k < i ==> (#[trigger] views(list@)[k]) != entry@,
        decreases list.len() - i,
    {
        proof {
            lemma_text_order_equal(list@[i as int]@, entry@);
        }
        if order_of(&list[i], entry) == 0 {
            assert(views(list@)[i as int] == entry@);
            return true;
        }
        i += 1;
    }
    false
}

/// The lines of `content` without the white space at their ends.
fn lines_trimmed(content: &str) -> (found: Vec<Vec<char>>)
    ensures
        views(found@) == trimmed_lines(text_lines(content@)),
{
    let all = lines(&chars_of(content));
    let mut found: Vec<Vec<char>> = Vec::new();
    let mut i: usize = 0;
    while i < all.len()
        invariant
            i <= all.len(),
            found@.len() == i,
            forall|k: int| 0 <= k < i ==> (#[trigger] found@[k])@ == trimmed(all@[k]@),
        decreases all.len() - i,
    {
        found.push(trim(&all[i]));
        i += 1;
    }
    assert(views(found@) =~= trimmed_lines(views(all@)));
    found
}

/// Those of `entries` that no line of `present` is.
fn missing_entries(present: &Vec<Vec<char>>, entries: &Vec<String>) -> (missing: Vec<String>)
    ensures
        texts(missing@) == missing_among(views(present@), texts(entries@)),
{
    let ghost all = texts(entries@);
    let mut missing: Vec<String> = Vec::new();
    let mut i: usize = 0;
    assert(all.take(0) =~= Seq::<Seq<char>>::empty());
    assert(texts(missing@) =~= Seq::<Seq<char>>::empty());
    while i < entries.len()
        invariant
            i <= entries.len(),
            all == texts(entries@),
            texts(missing@) == missing_among(views(present@), all.take(i as int)),
        decreases entries.len() - i,
    {
        proof {
            let next = all.take(i + 1);
            assert(next.drop_last() =~= all.take(i as int));
            assert(next.last() == entries@[i as int]@);
        }
        if !listed(present, &chars_of(entries[i].as_str())) {
            let ghost before = missing@;
            missing.push(entries[i].clone());
            assert(texts(missing@) =~= texts(before).push(entries@[i as int]@));
        }
        i += 1;
    }
    assert(all.take(i as int) =~= all);
    missing
}

/// Checks the ignore file of a workspace: it is in order where it lists
/// every required entry; else the error names the entries that it lacks.
pub fn check_bendis_gitignore(existing_content: &str) -> (checked: Result<(), String>)
    ensures
        match checked {
            Ok(_) => missing_of(existing_content@, required_entries()).len() == 0,
            Err(message) => missing_of(existing_content@, required_entries()).len() > 0
                && message@ == "Missing required entries in bendis_workspace/.gitignore: "@
                + join_with(missing_of(existing_content@, required_entries()), ", "@),
        },
{
    let present = lines_trimmed(existing_content);
    let mut required: Vec<String> = Vec::new();
    required.push(String::from_str(".bender/"));
    assert(texts(required@) =~= required_entries());
    let missing = missing_entries(&present, &required);
    if missing.len() == 0 {
        Ok(())
    } else {
        let mut message = String::from_str(
            "Missing required entries in bendis_workspace/.gitignore: ",
        );
        message.append(join(&missing, ", ").as_str());
        Err(message)
    }
}

/// The entries that ignore the directories `dirs`.
fn entries_for(dirs: &Vec<String>) -> (entries: Vec<String>)
    ensures
        texts(entries@) == entries_of(texts(dirs@)),
{
    let mut entries: Vec<String> = Vec::new();
    let mut i: usize = 0;
    while i < dirs.len()
        invariant
            i <= dirs.len(),
            entries@.len() == i,
            forall|k: int| 0 <= k < i ==> (#[trigger] entries@[k])@ == dirs@[k]@ + "/"@,
        decreases dirs.len() - i,
    {
        let mut entry = dirs[i].clone();
        entry.append("/");
        entries.push(entry);
        i += 1;
    }
    assert(texts(entries@) =~= entries_of(texts(dirs@)));
    entries
}

/// The ignore file of the workspace with the entries added that ignore the
/// mirrored directories `dirs` and that it does not list yet, below a
/// header; nothing where it lists them all. `existing_content` is empty
/// where there is no such file.
pub fn ensure_bendis_workspace_gitignore_entries(
    existing_content: &str,
    dirs: &Vec<String>,
) -> (updated: Option<String>)
    ensures
        match updated {
            None => missing_of(existing_content@, entries_of(texts(dirs@))).len() == 0,
            Some(content) => missing_of(existing_content@, entries_of(texts(dirs@))).len() > 0
                && content@ == existing_content@ + managed_header() + written(
                missing_of(existing_content@, entries_of(texts(dirs@))),
            ),
        },
{
    let entries = entries_for(dirs);
    let present = lines_trimmed(existing_content);
    let missing = missing_entries(&present, &entries);
    if missing.len() == 0 {
        return None;
    }
    let mut content = String::from_str(existing_content);
    content.append(
        "\n# Auto-managed by bendis\n# WARNING: Do not remove the entries below, they are required for proper git tracking\n# You can add your own entries after this section\n",
    );
    let ghost start = content@;
    let ghost all = texts(missing@);
    let mut i: usize = 0;
    assert(all.take(0) =~= Seq::<Seq<char>>::empty());
    assert(content@ =~= start + written(all.take(0)));
    while i < missing.len()
        invariant
            i <= missing.len(),
            all == texts(missing@),
            content@ == start + written(all.take(i as int)),
        decreases missing.len() - i,
    {
        proof {
            let next = all.take(i + 1);
            assert(next.drop_last() =~= all.take(i as int));
            assert(next.last() == missing@[i as int]@);
        }
        content.append(missing[i].as_str());
        content.append("\n");
        i += 1;
        assert(content@ =~= start + written(all.take(i as int)));
    }
    assert(all.take(i as int) =~= all);
    Some(content)
}

/// The ignore file of the project without the lines that ignore the
/// mirrored directories `dirs`, so that those directories are tracked;
/// nothing where that leaves the file as it is, white space at its end
/// aside.
pub fn ensure_root_gitignore_excludes_hw_target(
    existing_content: &str,
    dirs: &Vec<String>,
) -> (updated: Option<String>)
    ensures
        ({
            let kept = join_with(
                kept_lines(text_lines(existing_content@), entries_of(texts(dirs@))),
                "\n"@,
            );
            match updated {
                None => kept == trimmed_end(existing_content@),
                Some(content) => kept != trimmed_end(existing_content@) && content@ == kept
                    + "\n"@,
            }
        }),
{
    let entries = entries_for(dirs);
    let mut wanted: Vec<Vec<char>> = Vec::new();
    let mut e: usize = 0;
    while e < entries.len()
        invariant
            e <= entries.len(),
            wanted@.len() == e,
            forall|k: int| 0 <= k < e ==> (#[trigger] wanted@[k])@ == entries@[k]@,
        decreases entries.len() - e,
    {
        wanted.push(chars_of(entries[e].as_str()));
        e += 1;
    }
    assert(views(wanted@) =~= texts(entries@));
    let text = chars_of(existing_content);
    let all = lines(&text);
    let ghost every = views(all@);
    let mut kept: Vec<String> = Vec::new();
    let mut i: usize = 0;
    assert(every.take(0) =~= Seq::<Seq<char>>::empty());
    assert(texts(kept@) =~= Seq::<Seq<char>>::empty());
    while i < all.len()
        invariant
            i <= all.len(),
            every == views(all@),
            views(wanted@) == entries_of(texts(dirs@)),
            texts(kept@) == kept_lines(every.take(i as int), entries_of(texts(dirs@))),
        decreases all.len() - i,
    {
        proof {
            let next = every.take(i + 1);
            assert(next.drop_last() =~= every.take(i as int));
            assert(next.last() == all@[i as int]@);
        }
        if !listed(&wanted, &trim(&all[i])) {
            let ghost before = kept@;
            kept.push(string_of(&all[i]));
            assert(texts(kept@) =~= texts(before).push(all@[i as int]@));
        }
        i += 1;
    }
    assert(every.take(i as int) =~= every);
    let mut content = join(&kept, "\n");
    let unchanged = trim_end(&text);
    proof {
        lemma_text_order_equal(content@, unchanged@);
    }
    if order_of(&chars_of(content.as_str()), &unchanged) == 0 {
        None
    } else {
        content.append("\n");
        Some(content)
    }
}

} // verus!
