//! The set of override entries, keyed by package name.

use vstd::prelude::*;
use crate::model::{duplicate_value, EntryView, OverrideEntry};
use crate::ordered::{Entry, Keyed, Ordered};

verus! {

impl Keyed for EntryView {
    /// An override is kept under the name of its package.
    open spec fn key(&self) -> Seq<char> {
        self.name
    }
}

impl Entry for OverrideEntry {
    fn name(&self) -> (n: &str) {
        self.name.as_str()
    }

    fn duplicate(&self) -> (copy: OverrideEntry) {
        OverrideEntry {
            name: self.name.clone(),
            git: duplicate_value(&self.git),
            version: duplicate_value(&self.version),
            rev: duplicate_value(&self.rev),
            path: duplicate_value(&self.path),
        }
    }
}

/// A set of overrides with one entry to a package name, written out in the
/// order of the names.
pub type OverrideSet = Ordered<OverrideEntry>;

} // verus!
