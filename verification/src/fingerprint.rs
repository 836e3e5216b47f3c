//! The fingerprint of a directory tree, taken from the paths, sizes and
//! modification times of its files, and the decision whether a copy of the
//! tree has to be renewed.

use sha2::{Digest, Sha256};
use vstd::bytes::{spec_u64_to_le_bytes, u64_to_le_bytes};
use vstd::prelude::*;
use vstd::string::StrSliceExecFns;
use vstd::utf8::encode_utf8;
use crate::layout::{hex_of, lemma_hex_length, to_hex};
use crate::order::same_text;
use crate::ordered::{as_map, Entry, Keyed, lemma_sorted_listing_unique, Ordered, sorted_by_key};

verus! {

/// What the fingerprint reads of one regular file: its path relative to
/// the root of the tree, its size in bytes, and the time of its last
/// modification in seconds.
#[derive(Clone, Debug)]
pub struct FileRecord {
    pub path: String,
    pub size: u64,
    pub mtime: i64,
}

/// A `FileRecord` with its path as a sequence.
pub struct RecordView {
    pub path: Seq<char>,
    pub size: u64,
    pub mtime: i64,
}

impl View for FileRecord {
    type V = RecordView;

    open spec fn view(&self) -> RecordView {
        RecordView { path: self.path@, size: self.size, mtime: self.mtime }
    }
}

impl Keyed for RecordView {
    /// A file is kept under its path.
    open spec fn key(&self) -> Seq<char> {
        self.path
    }
}

impl Entry for FileRecord {
    fn name(&self) -> (n: &str) {
        self.path.as_str()
    }

    fn duplicate(&self) -> (copy: FileRecord) {
        FileRecord { path: self.path.clone(), size: self.size, mtime: self.mtime }
    }
}

/// The files of a directory tree, one record to a path, in the order of
/// the paths.
pub type FileIndex = Ordered<FileRecord>;

/// The SHA-256 digest of `message`.
pub uninterp spec fn sha256(message: Seq<u8>) -> Seq<u8>;

/// `sha2::Sha256::digest`: the digest of the message. Of the result this
/// is claimed: it is a function of the message alone, and it has the 32
/// bytes of the hasher's output array.
#[verifier::external_body]
fn digest(message: &Vec<u8>) -> (bytes: Vec<u8>)
    ensures
        bytes@ == sha256(message@),
        bytes@.len() == 32,
{
    Sha256::digest(message.as_slice()).to_vec()
}

/// What one file gives to the message: the bytes of its path, then its
/// size and its modification time, each as eight bytes, the lowest first.
pub open spec fn record_bytes(r: RecordView) -> Seq<u8> {
    encode_utf8(r.path) + spec_u64_to_le_bytes(r.size) + spec_u64_to_le_bytes(r.mtime as u64)
}

/// The message that is digested: what the files give, one after another.
pub open spec fn fingerprint_message(l: Seq<RecordView>) -> Seq<u8>
    decreases l.len(),
{
    if l.len() == 0 {
        Seq::empty()
    } else {
        fingerprint_message(l.drop_last()) + record_bytes(l.last())
    }
}

/// The fingerprint of a tree with the files `l`: the digest of the
/// message, written out in hexadecimal.
pub open spec fn fingerprint(l: Seq<RecordView>) -> Seq<char> {
    hex_of(sha256(fingerprint_message(l)))
}

/// The message that is digested for the files of `entries`.
pub fn message_of(entries: &FileIndex) -> (message: Vec<u8>)
    ensures
        message@ == fingerprint_message(entries.listing()),
{
    let ghost l = entries.listing();
    let count = entries.len();
    let mut message: Vec<u8> = Vec::new();
    let mut i: usize = 0;
    assert(l.take(0) =~= Seq::<RecordView>::empty());
    while i < count
        invariant
            i <= count,
            count == l.len(),
            l == entries.listing(),
            message@ == fingerprint_message(l.take(i as int)),
        decreases count - i,
    {
        let record = entries.entry(i);
        let mut path = record.path.as_str().as_bytes_vec();
        let mut size = u64_to_le_bytes(record.size);
        let mut mtime = u64_to_le_bytes(#[verifier::truncate] (record.mtime as u64));
        proof {
            let next = l.take(i + 1);
            assert(next.drop_last() =~= l.take(i as int));
            assert(next.last() == l[i as int]);
        }
        message.append(&mut path);
        message.append(&mut size);
        message.append(&mut mtime);
        i += 1;
    }
    assert(l.take(count as int) =~= l);
    message
}

/// The fingerprint of a directory tree: the digest of the paths, sizes and
/// modification times of its files, in the order of the paths. What the
/// files hold is not read.
pub fn calculate_dir_hash(entries: &FileIndex) -> (digest: String)
    ensures
        digest@ == fingerprint(entries.listing()),
        digest@.len() == 64,
{
    let bytes = digest(&message_of(entries));
    proof {
        lemma_hex_length(bytes@);
    }
    to_hex(&bytes)
}

/// What has to be done to bring a copy of a tree up to date.
#[derive(Clone, Copy, Debug, PartialEq, Eq, Structural)]
pub enum SyncPlan {
    /// Nothing: there is no source, or the copy has its fingerprint.
    Nothing,
    /// There is no copy yet: copy the source.
    Copy,
    /// The copy differs: remove it, then copy the source.
    Replace,
}

/// The plan that follows from what exists and from the two fingerprints,
/// which count only where both trees exist.
pub open spec fn decided(
    src_exists: bool,
    dest_exists: bool,
    src_hash: Seq<char>,
    dest_hash: Seq<char>,
) -> SyncPlan {
    if !src_exists {
        SyncPlan::Nothing
    } else if !dest_exists {
        SyncPlan::Copy
    } else if src_hash == dest_hash {
        SyncPlan::Nothing
    } else {
        SyncPlan::Replace
    }
}

/// The plan for a source and a copy, each given by its files where it
/// exists.
pub open spec fn planned(src: Option<Seq<RecordView>>, dest: Option<Seq<RecordView>>) -> SyncPlan {
    match (src, dest) {
        (None, _) => SyncPlan::Nothing,
        (Some(_), None) => SyncPlan::Copy,
        (Some(s), Some(d)) => decided(true, true, fingerprint(s), fingerprint(d)),
    }
}

/// Decides from what exists and from the two fingerprints what has to be
/// done.
pub fn decide_sync(src_exists: bool, dest_exists: bool, src_hash: &str, dest_hash: &str) -> (plan:
    SyncPlan)
    ensures
        plan == decided(src_exists, dest_exists, src_hash@, dest_hash@),
{
    if !src_exists {
        SyncPlan::Nothing
    } else if !dest_exists {
        SyncPlan::Copy
    } else if same_text(src_hash, dest_hash) {
        SyncPlan::Nothing
    } else {
        SyncPlan::Replace
    }
}

/// The files of an optional tree.
pub open spec fn optional_listing(tree: Option<&FileIndex>) -> Option<Seq<RecordView>> {
    match tree {
        Some(index) => Some(index.listing()),
        None => None,
    }
}

/// Decides what has to be done for a source and a copy, each given by its
/// files where it exists.
pub fn plan_sync(src: Option<&FileIndex>, dest: Option<&FileIndex>) -> (plan: SyncPlan)
    ensures
        plan == planned(optional_listing(src), optional_listing(dest)),
{
    match (src, dest) {
        (None, _) => SyncPlan::Nothing,
        (Some(_), None) => SyncPlan::Copy,
        (Some(s), Some(d)) => {
            let src_hash = calculate_dir_hash(s);
            let dest_hash = calculate_dir_hash(d);
            decide_sync(true, true, src_hash.as_str(), dest_hash.as_str())
        },
    }
}

/// Whether a plan copies anything.
pub fn sync_performed(plan: SyncPlan) -> (performed: bool)
    ensures
        performed == (plan != SyncPlan::Nothing),
{
    match plan {
        SyncPlan::Nothing => false,
        _ => true,
    }
}

/// The fingerprint does not depend on the order in which the files were
/// found: two trees that hold the same records under the same paths have
/// the same fingerprint.
pub proof fn lemma_fingerprint_of_content(a: Seq<RecordView>, b: Seq<RecordView>)
    requires
        sorted_by_key(a),
        sorted_by_key(b),
        as_map(a) == as_map(b),
    ensures
        fingerprint(a) == fingerprint(b),
{
    lemma_sorted_listing_unique(a, b);
}

/// A copy with the same paths, sizes and modification times as its source
/// is left as it is, whatever the files hold.
pub proof fn lemma_identical_trees_in_sync(src: Seq<RecordView>, dest: Seq<RecordView>)
    requires
        src == dest,
    ensures
        planned(Some(src), Some(dest)) == SyncPlan::Nothing,
{
}

/// The files of the copy once a plan has been carried out, by a copy that
/// keeps paths, sizes and modification times: those of the source where
/// anything was copied, those that were there before where nothing was.
pub open spec fn synced(src: Option<Seq<RecordView>>, dest: Option<Seq<RecordView>>) -> Option<
    Seq<RecordView>,
> {
    if planned(src, dest) == SyncPlan::Nothing {
        dest
    } else {
        src
    }
}

/// Synchronising is idempotent: once a plan has been carried out, the plan
/// for the same source is to do nothing.
pub proof fn lemma_sync_is_idempotent(
    src: Option<Seq<RecordView>>,
    dest: Option<Seq<RecordView>>,
)
    ensures
        planned(src, synced(src, dest)) == SyncPlan::Nothing,
{
}

/// A copy is never made from nothing, and a source without a copy is
/// always copied.
pub proof fn lemma_plan_without_a_tree(tree: Seq<RecordView>, other: Option<Seq<RecordView>>)
    ensures
        planned(None, other) == SyncPlan::Nothing,
        planned(Some(tree), None) == SyncPlan::Copy,
{
}

} // verus!
