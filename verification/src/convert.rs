//! The whole conversion: from a lock file, a manifest and an override file
//! to the text of the override file that pins what the lock resolved.

use vstd::prelude::*;
use crate::formatter::{
    continues_block, end_of_block, has_header, is_header, lemma_update_of_rendered,
    overrides_block, update_bender_yml_overrides, updated_text,
};
use crate::model::EntryView;
use crate::order::name_set;
use crate::text::{concat_all, line_pieces};
use crate::ordered::{as_map, lemma_sorted_listing, sorted_by_key, sorted_listing};
use crate::reconcile::{
    BenderYml, declared_names, declared_overrides, DotBenderYml, extract_dependencies_from_lock,
    extract_dependencies_from_yml, extract_overrides_from_bender_yml, find_missing_dependencies,
    lock_overrides, LockFile, missing_overrides, package_views,
};

verus! {

/// The overrides that are declared and those that reconciliation adds, the
/// added ones in the place of declared ones of the same name.
pub open spec fn reconciled_overrides(
    lock: LockFile,
    manifest: BenderYml,
    data: DotBenderYml,
) -> Map<Seq<char>, EntryView> {
    let declared = declared_overrides(data);
    declared.union_prefer_right(
        missing_overrides(
            lock_overrides(package_views(lock.packages@)),
            name_set(declared_names(manifest)),
            declared,
        ),
    )
}

/// The text of the override file after conversion.
pub open spec fn converted_text(
    lock: LockFile,
    manifest: BenderYml,
    data: DotBenderYml,
    text: Seq<char>,
) -> Seq<char> {
    updated_text(text, sorted_listing(reconciled_overrides(lock, manifest, data)))
}

/// Converts an override file: its overrides are reconciled with the lock
/// file and the manifest, and its text is brought up to date with the
/// result. `bender_yml_data` holds what `bender_yml_text` declares.
pub fn convert(
    lock_data: &LockFile,
    yml_data: &BenderYml,
    bender_yml_data: &DotBenderYml,
    bender_yml_text: &str,
) -> (updated: String)
    ensures
        updated@ == converted_text(*lock_data, *yml_data, *bender_yml_data, bender_yml_text@),
{
    let lock_deps = extract_dependencies_from_lock(lock_data);
    let yml_deps = extract_dependencies_from_yml(yml_data);
    let existing_overrides = extract_overrides_from_bender_yml(bender_yml_data);
    let missing_deps = find_missing_dependencies(&lock_deps, &yml_deps, &existing_overrides);
    update_bender_yml_overrides(bender_yml_text, &existing_overrides, &missing_deps)
}

/// Where the lock asks for nothing beyond what is declared, and the block
/// of overrides of the file is already the declared overrides as they are
/// written out, conversion gives the file back unchanged. `declared` are
/// the declared overrides in the order of their names; `before`, `header`,
/// `body` and `after` are the pieces of the text: those before the block,
/// the piece that opens it, those that belong to it, and those behind it.
pub proof fn lemma_convert_without_change(
    lock: LockFile,
    manifest: BenderYml,
    data: DotBenderYml,
    text: Seq<char>,
    declared: Seq<EntryView>,
    before: Seq<Seq<char>>,
    header: Seq<char>,
    body: Seq<Seq<char>>,
    after: Seq<Seq<char>>,
)
    requires
        sorted_by_key(declared),
        declared.len() > 0,
        declared_overrides(data) == as_map(declared),
        missing_overrides(
            lock_overrides(package_views(lock.packages@)),
            name_set(declared_names(manifest)),
            declared_overrides(data),
        ) == Map::<Seq<char>, EntryView>::empty(),
        line_pieces(text) == before + seq![header] + body + after,
        !has_header(before),
        is_header(header),
        forall|k: int| 0 <= k < body.len() ==> continues_block(#[trigger] body[k]),
        after.len() > 0 ==> !continues_block(after[0]),
        !has_header(after),
        header + concat_all(body) == overrides_block(declared) + end_of_block(header, body),
    ensures
        converted_text(lock, manifest, data, text) == text,
{
    assert(reconciled_overrides(lock, manifest, data) =~= as_map(declared));
    lemma_sorted_listing(declared);
    lemma_update_of_rendered(text, declared, before, header, body, after);
}

} // verus!
