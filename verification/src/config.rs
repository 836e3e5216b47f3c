//! The settings of the tool, the places it works in, and the directories
//! that path dependencies name.

use vstd::prelude::*;
use vstd::string::StringExecFns;
use crate::layout::{append_decimal, decimal};
use crate::order::same_text;
use crate::ordered::{
    as_map, Keyed, lemma_listed_keys, lemma_sorted_listing, NameSet, sorted_by_key, sorted_listing,
};
use crate::text::{chars_of, split, split_on, string_of, texts, views};
use crate::yaml::{path_values, section_paths};

verus! {

/// The settings that are kept between runs.
#[derive(Clone, Debug)]
pub struct BendisConfig {
    /// Whether the output of the resolver is held back: `1` for yes.
    pub silent_mode: u8,
    /// Whether the resolver's cache is removed after an update: `1` for yes.
    pub storage_saving_mode: u8,
    /// Whether the ignore file of the workspace is kept in order: `1` for yes.
    pub gitignore_check: u8,
    /// Whether the welcome has still to be shown: `1` for yes.
    pub first_run: u8,
    /// The version that ran last; empty before the first run.
    pub version: String,
}

/// The silent mode that holds where none is set: on.
pub fn default_silent_mode() -> (mode: u8)
    ensures
        mode == 1,
{
    1
}

/// The storage saving mode that holds where none is set: off.
pub fn default_storage_saving_mode() -> (mode: u8)
    ensures
        mode == 0,
{
    0
}

/// The ignore file check that holds where none is set: on.
pub fn default_gitignore_check() -> (mode: u8)
    ensures
        mode == 1,
{
    1
}

/// The first run mark that holds where none is set: the welcome has still
/// to be shown.
pub fn default_first_run() -> (mark: u8)
    ensures
        mark == 1,
{
    1
}

/// The last version that holds where none is set: none.
pub fn default_version() -> (version: String)
    ensures
        version@ == Seq::<char>::empty(),
{
    String::new()
}

impl Default for BendisConfig {
    fn default() -> (config: BendisConfig)
        ensures
            config.silent_mode == 1,
            config.storage_saving_mode == 0,
            config.gitignore_check == 1,
            config.first_run == 1,
            config.version@ == Seq::<char>::empty(),
    {
        BendisConfig {
            silent_mode: default_silent_mode(),
            storage_saving_mode: default_storage_saving_mode(),
            gitignore_check: default_gitignore_check(),
            first_run: default_first_run(),
            version: default_version(),
        }
    }
}

impl BendisConfig {
    /// The text of the settings file: each setting below the comment that
    /// explains it, and the place of the file at the top.
    pub open spec fn rendered(&self, config_path: Seq<char>) -> Seq<char> {
        "# Bendis Global Configuration File\n#\n# This file controls the behavior of bendis (Bender Integration System)\n# Location: "@
            + config_path
            + "\n\n# Silent mode: suppress bender output during cache preparation\n# 1 = on (default), 0 = off\nsilent_mode = "@
            + decimal(self.silent_mode as nat)
            + "\n\n# Storage saving mode: clean up bendis_workspace/.bender/ after update\n# 0 = off (default, keep cache), 1 = on (delete entire bendis_workspace/.bender/)\nstorage_saving_mode = "@
            + decimal(self.storage_saving_mode as nat)
            + "\n\n# GitIgnore check: auto-manage bendis_workspace/.gitignore file\n# 1 = on (default), 0 = off\ngitignore_check = "@
            + decimal(self.gitignore_check as nat)
            + "\n\n# First run flag: whether this is the first time running bendis\n# 0 = already shown welcome, 1 = need to show welcome (default)\nfirst_run = "@
            + decimal(self.first_run as nat)
            + "\n\n# Last run version: used to detect version updates\nversion = \""@
            + self.version@
            + "\"\n"@
    }

    /// Writes out the settings file that is kept at `config_path`.
    pub fn render(&self, config_path: &str) -> (content: String)
        ensures
            content@ == self.rendered(config_path@),
    {
        let mut content = String::from_str(
            "# Bendis Global Configuration File\n#\n# This file controls the behavior of bendis (Bender Integration System)\n# Location: ",
        );
        content.append(config_path);
        content.append(
            "\n\n# Silent mode: suppress bender output during cache preparation\n# 1 = on (default), 0 = off\nsilent_mode = ",
        );
        append_decimal(&mut content, self.silent_mode);
        content.append(
            "\n\n# Storage saving mode: clean up bendis_workspace/.bender/ after update\n# 0 = off (default, keep cache), 1 = on (delete entire bendis_workspace/.bender/)\nstorage_saving_mode = ",
        );
        append_decimal(&mut content, self.storage_saving_mode);
        content.append(
            "\n\n# GitIgnore check: auto-manage bendis_workspace/.gitignore file\n# 1 = on (default), 0 = off\ngitignore_check = ",
        );
        append_decimal(&mut content, self.gitignore_check);
        content.append(
            "\n\n# First run flag: whether this is the first time running bendis\n# 0 = already shown welcome, 1 = need to show welcome (default)\nfirst_run = ",
        );
        append_decimal(&mut content, self.first_run);
        content.append(
            "\n\n# Last run version: used to detect version updates\nversion = \"",
        );
        content.append(self.version.as_str());
        content.append(
            "\"\n",
        );
        content
    }

    /// Whether the welcome is due: on the first run, and on the first run
    /// of another version than the one that ran last.
    pub open spec fn welcome_due(&self, current: Seq<char>) -> bool {
        self.first_run == 1 || self.version_changed(current)
    }

    /// Whether another version than `current` ran last.
    pub open spec fn version_changed(&self, current: Seq<char>) -> bool {
        self.version@.len() != 0 && self.version@ != current
    }

    /// Whether another version than `current_version` ran last.
    pub fn is_version_changed(&self, current_version: &str) -> (changed: bool)
        ensures
            changed == self.version_changed(current_version@),
    {
        let stored = chars_of(self.version.as_str());
        stored.len() != 0 && !same_text(self.version.as_str(), current_version)
    }

    /// Whether the welcome is due for a run of `current_version`.
    pub fn should_show_welcome(&self, current_version: &str) -> (due: bool)
        ensures
            due == self.welcome_due(current_version@),
    {
        self.first_run == 1 || self.is_version_changed(current_version)
    }

    /// Notes that the welcome was shown by `current_version`.
    pub fn mark_welcomed(&mut self, current_version: &str)
        ensures
            final(self).first_run == 0,
            final(self).version@ == current_version@,
            final(self).silent_mode == old(self).silent_mode,
            final(self).storage_saving_mode == old(self).storage_saving_mode,
            final(self).gitignore_check == old(self).gitignore_check,
            !final(self).welcome_due(current_version@),
    {
        self.first_run = 0;
        self.version = String::from_str(current_version);
    }
}

/// The directory of the workspace, relative to the project.
pub fn get_bendis_dir() -> (dir: String)
    ensures
        dir@ == "bendis_workspace"@,
{
    String::from_str("bendis_workspace")
}

/// The root directory of the project, relative to itself.
pub fn get_root_dir() -> (dir: String)
    ensures
        dir@ == "."@,
{
    String::from_str(".")
}

/// What was found at the place of a workspace of the old layout.
#[derive(Clone, Debug)]
pub struct LegacyLayout {
    /// There is a directory at that place.
    pub is_directory: bool,
    /// It holds a manifest.
    pub has_manifest: bool,
    /// It holds an override file.
    pub has_override_file: bool,
    /// It holds a lock file.
    pub has_lock_file: bool,
}

/// Whether a complete workspace of the old layout was found: the directory
/// with its manifest, its override file and its lock file.
pub fn detect_legacy_structure(found: &LegacyLayout) -> (complete: bool)
    ensures
        complete == (found.is_directory && found.has_manifest && found.has_override_file
            && found.has_lock_file),
{
    if !found.is_directory {
        return false;
    }
    found.has_manifest && found.has_override_file && found.has_lock_file
}

/// Whether an update left the project complete: the manifest, the override
/// file, the lock file and the directory of the resolved dependencies are
/// all there.
pub fn update_complete(
    has_manifest: bool,
    has_override_file: bool,
    has_lock_file: bool,
    has_cache: bool,
) -> (complete: bool)
    ensures
        complete == (has_manifest && has_override_file && has_lock_file && has_cache),
{
    has_manifest && has_override_file && has_lock_file && has_cache
}

/// The first directory that a path names: what stands before its first
/// `/`, if that is not empty.
pub open spec fn top_level_dir(path: Seq<char>) -> Option<Seq<char>> {
    let first = split_on(path, '/')[0];
    if first.len() == 0 {
        None
    } else {
        Some(first)
    }
}

/// The first directory that a path names.
pub fn extract_top_level_dir(path: &str) -> (dir: Option<String>)
    ensures
        crate::model::optional_text(dir) == top_level_dir(path@),
{
    let parts = split(&chars_of(path), '/');
    assert(views(parts@)[0] == parts@[0]@);
    if parts[0].len() == 0 {
        None
    } else {
        Some(string_of(&parts[0]))
    }
}

/// The first directories that the first `n` of `paths` name, each under
/// itself.
pub open spec fn named_dirs(paths: Seq<Seq<char>>, n: int) -> Map<Seq<char>, Seq<char>> {
    Map::new(
        |d: Seq<char>| exists|k: int| 0 <= k < n && top_level_dir(#[trigger] paths[k]) == Some(d),
        |d: Seq<char>| d,
    )
}

/// The directories to mirror for the given paths of path dependencies: the
/// first directories that the paths name, each once and in the order of a
/// dictionary; `hw` and `target` where they name none.
pub open spec fn mirrored_dirs(paths: Seq<Seq<char>>) -> Seq<Seq<char>> {
    let found = sorted_listing(named_dirs(paths, paths.len() as int));
    if found.len() == 0 {
        seq!["hw"@, "target"@]
    } else {
        found
    }
}

/// Whether `dirs` lists the directories to mirror for `paths`: where a
/// path names a first directory, `dirs` holds exactly the first directories
/// that the paths name, each once and in the order of a dictionary; where
/// none does, `dirs` is `hw` and `target`.
pub open spec fn lists_dirs(dirs: Seq<Seq<char>>, paths: Seq<Seq<char>>) -> bool {
    if exists|k: int| 0 <= k < paths.len() && top_level_dir(#[trigger] paths[k]) is Some {
        &&& sorted_by_key(dirs)
        &&& forall|d: Seq<char>|
            dirs.contains(d) <==> exists|k: int|
                0 <= k < paths.len() && top_level_dir(#[trigger] paths[k]) == Some(d)
    } else {
        dirs == seq!["hw"@, "target"@]
    }
}

/// The directories to mirror for the given paths of path dependencies.
pub fn top_level_dirs(paths: &Vec<String>) -> (dirs: Vec<String>)
    ensures
        texts(dirs@) == mirrored_dirs(texts(paths@)),
        lists_dirs(texts(dirs@), texts(paths@)),
{
    let ghost all = texts(paths@);
    let mut found = NameSet::new();
    let mut i: usize = 0;
    assert(found@ =~= named_dirs(all, 0));
    while i < paths.len()
        invariant
            i <= paths.len(),
            all == texts(paths@),
            found.wf(),
            found@ == named_dirs(all, i as int),
        decreases paths.len() - i,
    {
        let ghost before = found@;
        assert(all[i as int] == paths@[i as int]@);
        match extract_top_level_dir(paths[i].as_str()) {
            Some(dir) => {
                found.insert(dir);
            },
            None => {},
        }
        assert(found@ =~= named_dirs(all, i + 1)) by {
            assert forall|d: Seq<char>|
                (#[trigger] found@.dom().contains(d)) <==> named_dirs(all, i + 1).dom().contains(
                    d,
                ) by {
                if before.dom().contains(d) {
                    let k = choose|k: int|
                        0 <= k < i && top_level_dir(#[trigger] all[k]) == Some(d);
                    assert(0 <= k < i + 1);
                }
                if named_dirs(all, i + 1).dom().contains(d) {
                    let k = choose|k: int|
                        0 <= k < i + 1 && top_level_dir(#[trigger] all[k]) == Some(d);
                    if k < i {
                        assert(before.dom().contains(d));
                    }
                }
            }
        }
        i += 1;
    }
    proof {
        lemma_sorted_listing(found.listing());
        let l = found.listing();
        assert forall|d: Seq<char>|
            l.contains(d) <==> exists|k: int|
                0 <= k < all.len() && top_level_dir(#[trigger] all[k]) == Some(d) by {
            lemma_listed_keys(l, d);
            if l.contains(d) {
                let i = choose|i: int| 0 <= i < l.len() && l[i] == d;
                assert(l[i].key() == d);
            }
            if as_map(l).dom().contains(d) {
                let i = choose|i: int| 0 <= i < l.len() && (#[trigger] l[i]).key() == d;
                assert(l[i] == d);
            }
            assert(found@.dom().contains(d) <==> named_dirs(all, all.len() as int).dom().contains(d));
        }
        if l.len() > 0 {
            assert(l.contains(l[0]));
        }
        if exists|k: int| 0 <= k < all.len() && top_level_dir(#[trigger] all[k]) is Some {
            let k = choose|k: int| 0 <= k < all.len() && top_level_dir(#[trigger] all[k]) is Some;
            assert(l.contains(top_level_dir(all[k])->0));
        }
    }
    let count = found.len();
    if count == 0 {
        let mut dirs: Vec<String> = Vec::new();
        dirs.push(String::from_str("hw"));
        dirs.push(String::from_str("target"));
        assert(texts(dirs@) =~= seq!["hw"@, "target"@]);
        return dirs;
    }
    let mut dirs: Vec<String> = Vec::new();
    let mut j: usize = 0;
    while j < count
        invariant
            j <= count,
            count == found.listing().len(),
            dirs@.len() == j,
            forall|k: int| 0 <= k < j ==> (#[trigger] dirs@[k])@ == found.listing()[k],
        decreases count - j,
    {
        dirs.push(found.entry(j).clone());
        j += 1;
    }
    assert(texts(dirs@) =~= found.listing());
    dirs
}

/// The text of an optional string slice.
pub open spec fn optional_content(content: Option<&str>) -> Option<Seq<char>> {
    match content {
        Some(s) => Some(s@),
        None => None,
    }
}

/// The paths of the path dependencies that a manifest and an override file
/// declare: those of the manifest's dependencies, then those of the
/// override file's overrides. A file that is not there declares none.
pub open spec fn declared_paths(manifest: Option<Seq<char>>, overrides: Option<Seq<char>>) -> Seq<
    Seq<char>,
> {
    (match manifest {
        Some(text) => section_paths(text, "dependencies"@),
        None => Seq::empty(),
    }) + (match overrides {
        Some(text) => section_paths(text, "overrides"@),
        None => Seq::empty(),
    })
}

/// The directories to mirror between the project and its workspace: the
/// first directories of the paths of the path dependencies that the
/// manifest and the override file declare, or `hw` and `target` where they
/// declare none. `None` stands for a file that is not there.
pub fn extract_path_dependencies(bender_yml: Option<&str>, dot_bender_yml: Option<&str>) -> (dirs:
    Vec<String>)
    ensures
        texts(dirs@) == mirrored_dirs(
            declared_paths(optional_content(bender_yml), optional_content(dot_bender_yml)),
        ),
        lists_dirs(
            texts(dirs@),
            declared_paths(optional_content(bender_yml), optional_content(dot_bender_yml)),
        ),
{
    let mut paths: Vec<String> = match bender_yml {
        Some(content) => path_values(content, "dependencies"),
        None => Vec::new(),
    };
    let mut more: Vec<String> = match dot_bender_yml {
        Some(content) => path_values(content, "overrides"),
        None => Vec::new(),
    };
    let ghost first = texts(paths@);
    let ghost second = texts(more@);
    assert(bender_yml is None ==> first =~= Seq::<Seq<char>>::empty());
    assert(dot_bender_yml is None ==> second =~= Seq::<Seq<char>>::empty());
    paths.append(&mut more);
    assert(texts(paths@) =~= first + second);
    top_level_dirs(&paths)
}

} // verus!
