//! Reconciliation of dependency overrides for hardware projects that are
//! built with Bender, and fingerprints of directory trees.
//!
//! From the packages that a lock file resolved, the dependencies that a
//! manifest declares and the overrides that are already declared,
//! [`reconcile`] finds the overrides that have to be added, with
//! repository addresses rewritten to the internal mirror ([`url`]) and
//! versions compared as dotted numbers ([`version`]). [`formatter`] writes
//! the overrides out as an aligned block and puts it into the text of the
//! override file; [`convert`] does all of it in one call.
//!
//! [`fingerprint`] digests the paths, sizes and modification times of the
//! files of a tree and decides whether a copy of the tree has to be
//! renewed. [`config`], [`gitignore`], [`updates`] and [`prompt`] hold the
//! rules of the tool around them.
//!
//! Every function states what it returns over sequences, sets and maps, and
//! the laws that relate the functions are proof functions beside them.
//! Nothing here reads or writes a file.

pub mod config;
pub mod convert;
pub mod fingerprint;
pub mod formatter;
pub mod gitignore;
pub mod layout;
pub mod model;
pub mod order;
pub mod ordered;
pub mod overrides;
pub mod prompt;
pub mod reconcile;
pub mod space;
pub mod text;
pub mod updates;
pub mod url;
pub mod version;
pub mod yaml;
