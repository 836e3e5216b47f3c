//! Which installed tools have a newer release.

use vstd::prelude::*;
use vstd::string::StringExecFns;
use crate::order::{order_of, text_order};
use crate::space::{split_words, words};
use crate::text::{chars_of, string_of, views};

verus! {

/// A tool of which a newer release exists.
#[derive(Clone, Debug)]
pub struct VersionUpdate {
    pub crate_name: String,
    pub current: String,
    pub latest: String,
}

/// A `VersionUpdate` with its texts as sequences.
pub struct UpdateView {
    pub crate_name: Seq<char>,
    pub current: Seq<char>,
    pub latest: Seq<char>,
}

impl View for VersionUpdate {
    type V = UpdateView;

    open spec fn view(&self) -> UpdateView {
        UpdateView { crate_name: self.crate_name@, current: self.current@, latest: self.latest@ }
    }
}

/// Whether `latest` counts as newer than `current`: it comes behind it in
/// the order of a dictionary. The texts are not read as numbers.
pub open spec fn newer(latest: Seq<char>, current: Seq<char>) -> bool {
    text_order(latest, current) > 0
}

/// Whether `latest` counts as newer than `current`.
pub fn is_newer_version(latest: &str, current: &str) -> (is_newer: bool)
    ensures
        is_newer == newer(latest@, current@),
{
    order_of(&chars_of(latest), &chars_of(current)) > 0
}

/// The update of one tool, where its latest release is known and newer
/// than what is installed.
pub open spec fn update_of(
    crate_name: Seq<char>,
    current: Option<Seq<char>>,
    latest: Option<Seq<char>>,
) -> Seq<UpdateView> {
    match (current, latest) {
        (Some(c), Some(l)) => if newer(l, c) {
            seq![UpdateView { crate_name, current: c, latest: l }]
        } else {
            Seq::empty()
        },
        _ => Seq::empty(),
    }
}

/// The views of the updates of `v`, in order.
pub open spec fn update_views(v: Seq<VersionUpdate>) -> Seq<UpdateView> {
    Seq::new(v.len(), |i: int| v[i]@)
}

/// The updates that are due: that of this tool, then that of the
/// resolver. A tool whose latest release could not be learned, and a
/// resolver that is not installed, give none.
pub fn check_for_updates(
    current_bendis_version: &str,
    latest_bendis: Option<String>,
    current_bender: Option<String>,
    latest_bender: Option<String>,
) -> (updates: Vec<VersionUpdate>)
    ensures
        update_views(updates@) == update_of(
            "bendis"@,
            Some(current_bendis_version@),
            crate::model::optional_text(latest_bendis),
        ) + update_of(
            "bender"@,
            crate::model::optional_text(current_bender),
            crate::model::optional_text(latest_bender),
        ),
{
    let mut updates: Vec<VersionUpdate> = Vec::new();
    if let Some(latest) = latest_bendis {
        if is_newer_version(latest.as_str(), current_bendis_version) {
            updates.push(
                VersionUpdate {
                    crate_name: String::from_str("bendis"),
                    current: String::from_str(current_bendis_version),
                    latest,
                },
            );
        }
    }
    if let Some(current) = current_bender {
        if let Some(latest) = latest_bender {
            if is_newer_version(latest.as_str(), current.as_str()) {
                updates.push(
                    VersionUpdate { crate_name: String::from_str("bender"), current, latest },
                );
            }
        }
    }
    assert(update_views(updates@) =~= update_of(
        "bendis"@,
        Some(current_bendis_version@),
        crate::model::optional_text(latest_bendis),
    ) + update_of(
        "bender"@,
        crate::model::optional_text(current_bender),
        crate::model::optional_text(latest_bender),
    ));
    updates
}

/// The version that the resolver reports of itself: the second word of
/// what it prints, which is its name and its version.
pub open spec fn reported_version(output: Seq<char>) -> Option<Seq<char>> {
    if words(output).len() >= 2 {
        Some(words(output)[1])
    } else {
        None
    }
}

/// The version that the resolver reports of itself in `output`, if it
/// reports one.
pub fn parse_bender_version(output: &str) -> (version: Option<String>)
    ensures
        crate::model::optional_text(version) == reported_version(output@),
{
    let found = split_words(&chars_of(output));
    if found.len() >= 2 {
        assert(views(found@)[1] == found@[1]@);
        Some(string_of(&found[1]))
    } else {
        None
    }
}

} // verus!
