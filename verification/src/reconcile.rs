//! Reconciliation: which overrides a lock file asks for beyond those that
//! are already declared.

use vstd::prelude::*;
use crate::model::{
    Attribute, AttributeView, EntryView, optional_text, OverrideEntry, Package, PackageView, Source,
    SourceView,
};
use crate::order::{name_listed, name_set};
use crate::ordered::{Entry, lemma_position_bounds, lemma_sorted_lookup, position};
use crate::overrides::OverrideSet;
use crate::text::texts;
use crate::url::{convert_url, rewritten};
use crate::version::{compare_versions, version_order};

verus! {

/// A lock file: the packages that were resolved.
#[derive(Clone, Debug)]
pub struct LockFile {
    pub packages: Vec<Package>,
}

/// A manifest, as far as reconciliation reads it: the names of the
/// dependencies that it declares, if it has such a section.
#[derive(Clone, Debug)]
pub struct BenderYml {
    pub dependencies: Option<Vec<String>>,
}

/// An override file, as far as reconciliation reads it: the overrides that
/// it declares, if it has such a section.
#[derive(Clone, Debug)]
pub struct DotBenderYml {
    pub overrides: Option<OverrideSet>,
}

/// The override that pins a resolved package: for a repository its
/// rewritten address with the version, or else the revision, that was
/// resolved; for a local directory its path.
pub open spec fn candidate(p: PackageView) -> EntryView {
    match p.source {
        SourceView::Git(url) => EntryView {
            name: p.name,
            git: Some(AttributeView::Text(rewritten(url))),
            version: match p.version {
                Some(v) => Some(AttributeView::Text(v)),
                None => None,
            },
            rev: match (p.version, p.revision) {
                (None, Some(r)) => Some(AttributeView::Text(r)),
                _ => None,
            },
            path: None,
        },
        SourceView::Path(path) => EntryView {
            name: p.name,
            git: None,
            version: None,
            rev: None,
            path: Some(AttributeView::Text(path)),
        },
    }
}

/// Whether an override is of one of the two regular kinds: a path and
/// nothing else, or a repository with at most one of a version and a
/// revision.
pub open spec fn is_regular(e: EntryView) -> bool {
    if e.path is Some {
        e.git is None && e.version is None && e.rev is None
    } else {
        e.git is Some && !(e.version is Some && e.rev is Some)
    }
}

/// The override that pins a resolved package is regular, has the name of
/// the package, and names a repository exactly where the package comes
/// from one.
pub proof fn lemma_candidate_is_regular(p: PackageView)
    ensures
        is_regular(candidate(p)),
        candidate(p).name == p.name,
        candidate(p).git is Some <==> p.source is Git,
        candidate(p).path is Some <==> p.source is Path,
{
}

/// The views of the packages of `v`, in order.
pub open spec fn package_views(v: Seq<Package>) -> Seq<PackageView> {
    Seq::new(v.len(), |i: int| v[i]@)
}

/// The candidates of the packages by name; of two packages of one name the
/// later one counts.
pub open spec fn lock_overrides(packages: Seq<PackageView>) -> Map<Seq<char>, EntryView>
    decreases packages.len(),
{
    if packages.len() == 0 {
        Map::empty()
    } else {
        lock_overrides(packages.drop_last()).insert(
            packages.last().name,
            candidate(packages.last()),
        )
    }
}

/// The version by which an entry is compared: the text of a string, the
/// decimal fraction of a number, none for anything else.
pub open spec fn comparable_version(e: EntryView) -> Option<Seq<char>> {
    match e.version {
        Some(AttributeView::Text(s)) => Some(s),
        Some(AttributeView::Other { shown, decimal }) => decimal,
        None => None,
    }
}

/// Whether a candidate takes the place of the override that is declared
/// for its name: a repository against a repository where its version is
/// strictly newer, a repository against a local directory always, and
/// nothing else.
pub open spec fn supersedes(new: EntryView, declared: EntryView) -> bool {
    if new.git is Some && declared.git is Some {
        version_order(comparable_version(new), comparable_version(declared)) > 0
    } else {
        new.git is Some && declared.path is Some
    }
}

/// Whether the lock's entry for `name` has to be added to the overrides:
/// the name is no direct dependency, and either no override is declared
/// for it or the lock's entry takes its place.
pub open spec fn is_missing(
    lock: Map<Seq<char>, EntryView>,
    direct: Set<Seq<char>>,
    declared: Map<Seq<char>, EntryView>,
    name: Seq<char>,
) -> bool {
    &&& lock.dom().contains(name)
    &&& !direct.contains(name)
    &&& declared.dom().contains(name) ==> supersedes(lock[name], declared[name])
}

/// The overrides to add: the lock's entries of the missing names.
pub open spec fn missing_overrides(
    lock: Map<Seq<char>, EntryView>,
    direct: Set<Seq<char>>,
    declared: Map<Seq<char>, EntryView>,
) -> Map<Seq<char>, EntryView> {
    Map::new(|n: Seq<char>| is_missing(lock, direct, declared, n), |n: Seq<char>| lock[n])
}

/// The override that pins a resolved package.
pub fn candidate_of(package: &Package) -> (entry: OverrideEntry)
    ensures
        entry@ == candidate(package@),
{
    match &package.source {
        Source::Git(url) => {
            let git = Some(Attribute::Text(convert_url(url.as_str())));
            match (&package.version, &package.revision) {
                (Some(v), _) => OverrideEntry {
                    name: package.name.clone(),
                    git,
                    version: Some(Attribute::Text(v.clone())),
                    rev: None,
                    path: None,
                },
                (None, Some(r)) => OverrideEntry {
                    name: package.name.clone(),
                    git,
                    version: None,
                    rev: Some(Attribute::Text(r.clone())),
                    path: None,
                },
                (None, None) => OverrideEntry {
                    name: package.name.clone(),
                    git,
                    version: None,
                    rev: None,
                    path: None,
                },
            }
        },
        Source::Path(path) => OverrideEntry {
            name: package.name.clone(),
            git: None,
            version: None,
            rev: None,
            path: Some(Attribute::Text(path.clone())),
        },
    }
}

/// The overrides that would pin every package of the lock file.
pub fn extract_dependencies_from_lock(lock_data: &LockFile) -> (dependencies: OverrideSet)
    ensures
        dependencies.wf(),
        dependencies@ == lock_overrides(package_views(lock_data.packages@)),
{
    let mut dependencies = OverrideSet::new();
    let ghost all = package_views(lock_data.packages@);
    let mut i: usize = 0;
    assert(all.take(0) =~= Seq::<PackageView>::empty());
    while i < lock_data.packages.len()
        invariant
            i <= lock_data.packages.len(),
            all == package_views(lock_data.packages@),
            dependencies.wf(),
            dependencies@ == lock_overrides(all.take(i as int)),
        decreases lock_data.packages.len() - i,
    {
        let entry = candidate_of(&lock_data.packages[i]);
        proof {
            let next = all.take(i + 1);
            assert(next.drop_last() =~= all.take(i as int));
            assert(next.last() == lock_data.packages@[i as int]@);
        }
        dependencies.insert(entry);
        i += 1;
    }
    assert(all.take(i as int) =~= all);
    dependencies
}

/// The names of the dependencies that the manifest declares.
pub open spec fn declared_names(manifest: BenderYml) -> Seq<Seq<char>> {
    match manifest.dependencies {
        Some(names) => texts(names@),
        None => Seq::empty(),
    }
}

/// The names of the dependencies that the manifest declares; none where it
/// has no such section.
pub fn extract_dependencies_from_yml(yml_data: &BenderYml) -> (names: Vec<String>)
    ensures
        texts(names@) == declared_names(*yml_data),
{
    let mut names: Vec<String> = Vec::new();
    if let Some(declared) = &yml_data.dependencies {
        let mut i: usize = 0;
        while i < declared.len()
            invariant
                i <= declared.len(),
                names@.len() == i,
                forall|k: int| 0 <= k < i ==> (#[trigger] names@[k])@ == declared@[k]@,
            decreases declared.len() - i,
        {
            names.push(declared[i].clone());
            i += 1;
        }
        assert(texts(names@) =~= texts(declared@));
    } else {
        assert(texts(names@) =~= Seq::<Seq<char>>::empty());
    }
    names
}

/// The overrides that the override file declares, by name.
pub open spec fn declared_overrides(data: DotBenderYml) -> Map<Seq<char>, EntryView> {
    match data.overrides {
        Some(set) => set@,
        None => Map::empty(),
    }
}

/// The overrides that the override file declares; none where it has no
/// such section.
pub fn extract_overrides_from_bender_yml(bender_yml_data: &DotBenderYml) -> (declared:
    OverrideSet)
    ensures
        declared@ == declared_overrides(*bender_yml_data),
        match bender_yml_data.overrides {
            Some(set) => declared.listing() == set.listing(),
            None => declared.listing() == Seq::<EntryView>::empty(),
        },
{
    match &bender_yml_data.overrides {
        Some(set) => set.duplicate(),
        None => OverrideSet::new(),
    }
}

/// The version by which an entry is compared.
pub fn version_key(entry: &OverrideEntry) -> (key: Option<String>)
    ensures
        optional_text(key) == comparable_version(entry@),
{
    match &entry.version {
        Some(Attribute::Text(s)) => Some(s.clone()),
        Some(Attribute::Other { shown, decimal }) => match decimal {
            Some(d) => Some(d.clone()),
            None => None,
        },
        None => None,
    }
}

/// Whether a candidate takes the place of the override that is declared
/// for its name.
pub fn takes_place_of(new: &OverrideEntry, declared: &OverrideEntry) -> (wins: bool)
    ensures
        wins == supersedes(new@, declared@),
{
    if new.git.is_some() && declared.git.is_some() {
        let new_version = version_key(new);
        let declared_version = version_key(declared);
        compare_versions(&new_version, &declared_version) > 0
    } else {
        new.git.is_some() && declared.path.is_some()
    }
}

/// The overrides to add to those already declared, so that every package
/// of the lock that is no direct dependency is pinned as the lock resolved
/// it: the lock's entries that are new, and those that take the place of a
/// declared one.
pub fn find_missing_dependencies(
    lock_deps: &OverrideSet,
    yml_deps: &Vec<String>,
    existing_overrides: &OverrideSet,
) -> (missing: OverrideSet)
    ensures
        missing.wf(),
        missing@ == missing_overrides(lock_deps@, name_set(texts(yml_deps@)), existing_overrides@),
{
    proof {
        use_type_invariant(lock_deps);
        use_type_invariant(existing_overrides);
    }
    let mut missing = OverrideSet::new();
    let ghost lock = lock_deps@;
    let ghost direct = name_set(texts(yml_deps@));
    let ghost declared = existing_overrides@;
    let ghost l = lock_deps.listing();
    let count = lock_deps.len();
    let mut i: usize = 0;
    proof {
        assert forall|n: Seq<char>| position(l, n) >= 0 by {
            lemma_position_bounds(l, n);
        }
    }
    while i < count
        invariant
            i <= count,
            count == l.len(),
            lock_deps.wf(),
            existing_overrides.wf(),
            lock == lock_deps@,
            direct == name_set(texts(yml_deps@)),
            declared == existing_overrides@,
            l == lock_deps.listing(),
            missing.wf(),
            forall|n: Seq<char>| #[trigger]
                missing@.dom().contains(n) <==> is_missing(lock, direct, declared, n)
                    && position(l, n) < i,
            forall|n: Seq<char>| #[trigger]
                missing@.dom().contains(n) ==> missing@[n] == lock[n],
        decreases count - i,
    {
        let entry = lock_deps.entry(i);
        let ghost name = entry@.name;
        proof {
            lemma_sorted_lookup(l, i as int);
        }
        let wanted = if name_listed(yml_deps, entry.name.as_str()) {
            false
        } else {
            match existing_overrides.get(entry.name.as_str()) {
                Some(old) => takes_place_of(entry, old),
                None => true,
            }
        };
        assert(wanted == is_missing(lock, direct, declared, name));
        let ghost before = missing@;
        if wanted {
            missing.insert(entry.duplicate());
        }
        proof {
            assert forall|n: Seq<char>| #[trigger]
                missing@.dom().contains(n) <==> is_missing(lock, direct, declared, n)
                    && position(l, n) < i + 1 by {
                lemma_position_bounds(l, n);
                if n != name && position(l, n) == i {
                    assert(l[i as int].name == n);
                }
                assert(before.dom().contains(n) <==> is_missing(lock, direct, declared, n)
                    && position(l, n) < i);
            }
            assert forall|n: Seq<char>| #[trigger] missing@.dom().contains(n) implies missing@[n]
                == lock[n] by {
                if n != name {
                    assert(before.dom().contains(n));
                }
            }
        }
        i += 1;
    }
    proof {
        assert forall|n: Seq<char>|
            (#[trigger] missing@.dom().contains(n) <==> missing_overrides(
                lock,
                direct,
                declared,
            ).dom().contains(n)) by {
            lemma_position_bounds(l, n);
        }
        assert(missing@.dom() =~= missing_overrides(lock, direct, declared).dom());
        assert(missing@ =~= missing_overrides(lock, direct, declared));
    }
    missing
}

/// Reconciliation never adds an override for a direct dependency.
pub proof fn lemma_direct_dependency_never_overridden(
    lock: Map<Seq<char>, EntryView>,
    direct: Set<Seq<char>>,
    declared: Map<Seq<char>, EntryView>,
    name: Seq<char>,
)
    requires
        direct.contains(name),
    ensures
        !missing_overrides(lock, direct, declared).dom().contains(name),
{
}

/// Reconciliation never downgrades: where a repository override is
/// declared for a name and the lock resolved that name to a repository at
/// a version that is not strictly newer, nothing is added for the name.
pub proof fn lemma_never_downgrades(
    lock: Map<Seq<char>, EntryView>,
    direct: Set<Seq<char>>,
    declared: Map<Seq<char>, EntryView>,
    name: Seq<char>,
)
    requires
        lock.dom().contains(name),
        declared.dom().contains(name),
        lock[name].git is Some,
        declared[name].git is Some,
        version_order(comparable_version(lock[name]), comparable_version(declared[name])) <= 0,
    ensures
        !missing_overrides(lock, direct, declared).dom().contains(name),
{
}

/// A repository takes the place of a local directory: where the declared
/// override of a name gives a path and no repository, and the lock resolved
/// the name to a repository, the lock's entry is added, whatever its
/// version, unless the name is a direct dependency.
pub proof fn lemma_repository_replaces_path(
    lock: Map<Seq<char>, EntryView>,
    direct: Set<Seq<char>>,
    declared: Map<Seq<char>, EntryView>,
    name: Seq<char>,
)
    requires
        lock.dom().contains(name),
        declared.dom().contains(name),
        !direct.contains(name),
        lock[name].git is Some,
        declared[name].git is None,
        declared[name].path is Some,
    ensures
        missing_overrides(lock, direct, declared).dom().contains(name),
        missing_overrides(lock, direct, declared)[name] == lock[name],
{
}

/// What is added is taken from the lock as it stands, and only for names
/// that have no declared override or whose declared override it replaces.
pub proof fn lemma_missing_comes_from_lock(
    lock: Map<Seq<char>, EntryView>,
    direct: Set<Seq<char>>,
    declared: Map<Seq<char>, EntryView>,
    name: Seq<char>,
)
    requires
        missing_overrides(lock, direct, declared).dom().contains(name),
    ensures
        lock.dom().contains(name),
        missing_overrides(lock, direct, declared)[name] == lock[name],
        declared.dom().contains(name) ==> supersedes(lock[name], declared[name]),
{
}

/// No override takes its own place.
pub proof fn lemma_nothing_supersedes_itself(e: EntryView)
    ensures
        !supersedes(e, e),
{
    crate::version::lemma_version_order_reflexive(comparable_version(e));
}

/// Reconciliation converges: once what it adds has been put among the
/// declared overrides, a second run on the same lock and the same direct
/// dependencies adds nothing.
pub proof fn lemma_reconciliation_converges(
    lock: Map<Seq<char>, EntryView>,
    direct: Set<Seq<char>>,
    declared: Map<Seq<char>, EntryView>,
)
    ensures
        missing_overrides(
            lock,
            direct,
            declared.union_prefer_right(missing_overrides(lock, direct, declared)),
        ) == Map::<Seq<char>, EntryView>::empty(),
{
    let added = missing_overrides(lock, direct, declared);
    let merged = declared.union_prefer_right(added);
    let again = missing_overrides(lock, direct, merged);
    assert forall|n: Seq<char>| !(#[trigger] again.dom().contains(n)) by {
        if lock.dom().contains(n) && !direct.contains(n) {
            if added.dom().contains(n) {
                lemma_nothing_supersedes_itself(lock[n]);
            }
        }
    }
    assert(again =~= Map::<Seq<char>, EntryView>::empty());
}

/// What is read from a lock does not depend on the order of its packages:
/// a name has an entry exactly where a package has that name, and where no
/// two packages share a name, the entry is the candidate of that package.
pub proof fn lemma_lock_overrides_by_name(packages: Seq<PackageView>)
    ensures
        forall|n: Seq<char>| #[trigger]
            lock_overrides(packages).dom().contains(n) <==> exists|i: int|
                0 <= i < packages.len() && (#[trigger] packages[i]).name == n,
        (forall|i: int, j: int|
            0 <= i < j < packages.len() ==> (#[trigger] packages[i]).name != (
            #[trigger] packages[j]).name) ==> forall|i: int|
            0 <= i < packages.len() ==> lock_overrides(packages)[(#[trigger] packages[i]).name]
                == candidate(packages[i]),
    decreases packages.len(),
{
    if packages.len() > 0 {
        let rest = packages.drop_last();
        let last = packages.last();
        lemma_lock_overrides_by_name(rest);
        assert forall|n: Seq<char>| #[trigger]
            lock_overrides(packages).dom().contains(n) <==> exists|i: int|
                0 <= i < packages.len() && (#[trigger] packages[i]).name == n by {
            if lock_overrides(packages).dom().contains(n) {
                if n == last.name {
                    assert(packages[packages.len() - 1].name == n);
                } else {
                    let i = choose|i: int| 0 <= i < rest.len() && (#[trigger] rest[i]).name == n;
                    assert(packages[i].name == n);
                }
            }
            if exists|i: int| 0 <= i < packages.len() && (#[trigger] packages[i]).name == n {
                let i = choose|i: int| 0 <= i < packages.len() && (#[trigger] packages[i]).name == n;
                if i < rest.len() {
                    assert(rest[i].name == n);
                }
            }
        }
        if forall|i: int, j: int|
            0 <= i < j < packages.len() ==> (#[trigger] packages[i]).name != (
            #[trigger] packages[j]).name {
            assert forall|i: int, j: int| 0 <= i < j < rest.len() implies (#[trigger] rest[i]).name
                != (#[trigger] rest[j]).name by {
                assert(rest[i] == packages[i] && rest[j] == packages[j]);
            }
            assert forall|i: int| 0 <= i < packages.len() implies lock_overrides(packages)[(
            #[trigger] packages[i]).name] == candidate(packages[i]) by {
                if i < rest.len() {
                    assert(rest[i] == packages[i]);
                    assert(packages[i].name != packages[packages.len() - 1].name);
                }
            }
        }
    }
}

} // verus!
