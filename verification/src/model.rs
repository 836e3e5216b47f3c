//! The data that reconciliation works on: resolved packages of a lock file,
//! and override entries.

use vstd::prelude::*;
use vstd::string::StringExecFns;

verus! {

/// Where a resolved package comes from.
#[derive(Clone, Debug)]
pub enum Source {
    /// A repository, by its address.
    Git(String),
    /// A local directory.
    Path(String),
}

/// A `Source` with its texts as sequences.
pub enum SourceView {
    Git(Seq<char>),
    Path(Seq<char>),
}

impl View for Source {
    type V = SourceView;

    open spec fn view(&self) -> SourceView {
        match *self {
            Source::Git(url) => SourceView::Git(url@),
            Source::Path(path) => SourceView::Path(path@),
        }
    }
}

/// The source that the keys of a lock entry's source name: a repository
/// where the address alone is given, a local directory where the path
/// alone is given, none where neither or both are.
pub open spec fn source_of_keys(git: Option<Seq<char>>, path: Option<Seq<char>>) -> Option<
    SourceView,
> {
    match (git, path) {
        (Some(url), None) => Some(SourceView::Git(url)),
        (None, Some(dir)) => Some(SourceView::Path(dir)),
        _ => None,
    }
}

/// The view of the source of a result, if it has one.
pub open spec fn source_found(found: Result<Source, String>) -> Option<SourceView> {
    match found {
        Ok(source) => Some(source@),
        Err(_) => None,
    }
}

impl Source {
    /// The source that the keys `Git` and `Path` of a lock entry's source
    /// name. Exactly one of them has to be given; else the error says which
    /// keys are expected.
    pub fn from_keys(git: Option<String>, path: Option<String>) -> (found: Result<Source, String>)
        ensures
            source_found(found) == source_of_keys(optional_text(git), optional_text(path)),
            found is Err ==> found->Err_0@ == "Expected 'Git' or 'Path' key in source"@,
    {
        match (git, path) {
            (Some(url), None) => Ok(Source::Git(url)),
            (None, Some(dir)) => Ok(Source::Path(dir)),
            _ => Err(String::from_str("Expected 'Git' or 'Path' key in source")),
        }
    }
}

/// One resolved package of a lock file.
#[derive(Clone, Debug)]
pub struct Package {
    pub name: String,
    pub revision: Option<String>,
    pub version: Option<String>,
    pub source: Source,
    pub dependencies: Vec<String>,
}

/// What reconciliation reads of a `Package`.
pub struct PackageView {
    pub name: Seq<char>,
    pub revision: Option<Seq<char>>,
    pub version: Option<Seq<char>>,
    pub source: SourceView,
}

/// The characters of an optional string.
pub open spec fn optional_text(v: Option<String>) -> Option<Seq<char>> {
    match v {
        Some(s) => Some(s@),
        None => None,
    }
}

impl View for Package {
    type V = PackageView;

    open spec fn view(&self) -> PackageView {
        PackageView {
            name: self.name@,
            revision: optional_text(self.revision),
            version: optional_text(self.version),
            source: self.source@,
        }
    }
}

/// The value of one attribute of an override entry.
#[derive(Clone, Debug)]
pub enum Attribute {
    /// A string.
    Text(String),
    /// Anything else: as it is written out, and, where it is a number, as
    /// a decimal fraction.
    Other { shown: String, decimal: Option<String> },
}

/// A `Attribute` with its texts as sequences.
pub enum AttributeView {
    Text(Seq<char>),
    Other { shown: Seq<char>, decimal: Option<Seq<char>> },
}

impl View for Attribute {
    type V = AttributeView;

    open spec fn view(&self) -> AttributeView {
        match *self {
            Attribute::Text(s) => AttributeView::Text(s@),
            Attribute::Other { shown, decimal } => AttributeView::Other {
                shown: shown@,
                decimal: optional_text(decimal),
            },
        }
    }
}

/// The view of an optional value.
pub open spec fn optional_value(v: Option<Attribute>) -> Option<AttributeView> {
    match v {
        Some(x) => Some(x@),
        None => None,
    }
}

/// One override: a package name and the attributes recognised for it.
#[derive(Clone, Debug)]
pub struct OverrideEntry {
    pub name: String,
    pub git: Option<Attribute>,
    pub version: Option<Attribute>,
    pub rev: Option<Attribute>,
    pub path: Option<Attribute>,
}

/// An `OverrideEntry` with its texts as sequences.
pub struct EntryView {
    pub name: Seq<char>,
    pub git: Option<AttributeView>,
    pub version: Option<AttributeView>,
    pub rev: Option<AttributeView>,
    pub path: Option<AttributeView>,
}

impl View for OverrideEntry {
    type V = EntryView;

    open spec fn view(&self) -> EntryView {
        EntryView {
            name: self.name@,
            git: optional_value(self.git),
            version: optional_value(self.version),
            rev: optional_value(self.rev),
            path: optional_value(self.path),
        }
    }
}

impl Attribute {
    /// A copy of the value.
    pub fn duplicate(&self) -> (copy: Attribute)
        ensures
            copy@ == self@,
    {
        match self {
            Attribute::Text(s) => Attribute::Text(s.clone()),
            Attribute::Other { shown, decimal } => Attribute::Other {
                shown: shown.clone(),
                decimal: match decimal {
                    Some(d) => Some(d.clone()),
                    None => None,
                },
            },
        }
    }
}

/// A copy of an optional value.
pub fn duplicate_value(v: &Option<Attribute>) -> (copy: Option<Attribute>)
    ensures
        optional_value(copy) == optional_value(*v),
{
    match v {
        Some(x) => Some(x.duplicate()),
        None => None,
    }
}

} // verus!
