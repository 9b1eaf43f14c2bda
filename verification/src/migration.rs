//! Carrying user data across the rename of the app's data folders
//! (`nms-mod-manager` to `nomansmanager`): what is copied, what is
//! repaired, and when an old location may go.
use vstd::prelude::*;
use crate::json::{Json, JsonValue};
use crate::paths::{join, join_spec, file_name_spec, stem_spec, trimmed_len_pub};
use crate::text::{concat, string_from_chars, chars_of};

verus! {

/// The old name of the app's folders.
pub open spec fn legacy_dir_name() -> Seq<char> {
    "nms-mod-manager"@
}

/// The old folder under a base folder.
pub fn legacy_dir(base: &str) -> (r: String)
    ensures
        r@ == join_spec(base@, legacy_dir_name()),
{
    join(base, "nms-mod-manager")
}

/// A missing entry of the new side is copied over; nothing present is
/// overwritten.
pub fn should_copy_entry(dst_exists: bool) -> (r: bool)
    ensures
        r == !dst_exists,
{
    !dst_exists
}

/// A settings file is carried over only when the old one is a file and the
/// new side has none yet.
pub fn should_copy_settings(old_is_file: bool, new_exists: bool) -> (r: bool)
    ensures
        r == (old_is_file && !new_exists),
{
    old_is_file && !new_exists
}

/// Length of a profile's `mod_order` list (0 when the profile did not
/// parse, or has no such list).
pub open spec fn mod_order_count_spec(v: Option<Json>) -> nat {
    match v {
        Some(p) => match p.get_key("mod_order"@) {
            Some(Json::Arr(xs)) => xs.len(),
            _ => 0,
        },
        None => 0,
    }
}

/// Length of a profile's `mod_order` list (see `mod_order_count_spec`).
pub fn mod_order_count(v: Option<&JsonValue>) -> (r: usize)
    ensures
        r as nat == mod_order_count_spec(crate::json::opt_model(v)),
{
    match v {
        Some(p) => match p.get("mod_order") {
            Some(JsonValue::Array(xs)) => xs.len(),
            _ => 0,
        },
        None => 0,
    }
}

/// A new profile is repaired from the old one when the new one lists no
/// mods and the old one does.
pub fn needs_repair(old_count: usize, new_count: usize) -> (r: bool)
    ensures
        r == (old_count > 0 && new_count == 0),
{
    old_count > 0 && new_count == 0
}

/// `Path::with_extension`: `p` with its file name's extension replaced by
/// `ext` (added when it has none); a path without a file name is unchanged.
pub open spec fn with_ext_spec(p: Seq<char>, ext: Seq<char>) -> Seq<char> {
    match file_name_spec(p) {
        Some(n) => {
            let t = crate::paths::trimmed_len(p, p.len() as int);
            p.subrange(0, t - n.len()) + stem_spec(n) + if ext.len() > 0 {
                seq!['.'] + ext
            } else {
                Seq::empty()
            }
        },
        None => p,
    }
}

/// `p` with extension `ext` (see `with_ext_spec`).
pub fn with_extension(p: &str, ext: &str) -> (r: String)
    ensures
        r@ == with_ext_spec(p@, ext@),
{
    match crate::paths::file_name_of(p) {
        Some(n) => {
            let v = chars_of(p);
            let t = trimmed_len_pub(&v);
            let nv = chars_of(n.as_str());
            proof {
                crate::paths::lemma_file_name_len(p@);
            }
            let head = string_from_chars(vstd::slice::slice_subrange(v.as_slice(), 0, t - nv.len()));
            let stem = crate::paths::name_stem(n.as_str());
            let a = concat(head.as_str(), stem.as_str());
            if ext.is_empty() {
                proof {
                    assert(ext@.len() == 0);
                }
                assert(a@ =~= a@ + Seq::<char>::empty());
                a
            } else {
                let b = concat(a.as_str(), ".");
                proof {
                    reveal_strlit(".");
                    assert("."@ =~= seq!['.']);
                }
                concat(b.as_str(), ext)
            }
        },
        None => p.to_owned(),
    }
}

// ---------------------------------------------------------------------------
// Verified cleanup
// ---------------------------------------------------------------------------

/// What an entry of the old tree is.
#[derive(Debug, PartialEq)]
pub enum EntryKind {
    Dir,
    File,
    /// A symlink or special file: never counted as mirrored.
    Other,
}

/// One entry under the old folder, with what was found at its counterpart
/// on the new side.
#[derive(Debug, PartialEq)]
pub struct TreeEntry {
    pub kind: EntryKind,
    /// The counterpart is a directory.
    pub counterpart_is_dir: bool,
    /// The entry's bytes, when it is a file that could be read.
    pub old_bytes: Option<Vec<u8>>,
    /// The counterpart's bytes, when it could be read.
    pub new_bytes: Option<Vec<u8>>,
}

/// An entry is mirrored when it is a directory whose counterpart is one, or
/// a file whose counterpart reads back the same bytes.
pub open spec fn mirrored(e: TreeEntry) -> bool {
    match e.kind {
        EntryKind::Dir => e.counterpart_is_dir,
        EntryKind::File => match (e.old_bytes, e.new_bytes) {
            (Some(a), Some(b)) => a@ == b@,
            _ => false,
        },
        EntryKind::Other => false,
    }
}

fn same_bytes(a: &Vec<u8>, b: &Vec<u8>) -> (r: bool)
    ensures
        r == (a@ == b@),
{
    if a.len() != b.len() {
        return false;
    }
    let mut i: usize = 0;
    while i < a.len()
        invariant
            i <= a@.len(),
            a@.len() == b@.len(),
            forall|j: int| 0 <= j < i ==> a@[j] == b@[j],
        decreases a@.len() - i,
    {
        if a[i] != b[i] {
            return false;
        }
        i = i + 1;
    }
    assert(a@ =~= b@);
    true
}

/// Whether two files read back the same bytes (false when either could not
/// be read).
pub fn same_file(a: Option<&Vec<u8>>, b: Option<&Vec<u8>>) -> (r: bool)
    ensures
        r == match (a, b) {
            (Some(x), Some(y)) => x@ == y@,
            _ => false,
        },
{
    match (a, b) {
        (Some(x), Some(y)) => same_bytes(x, y),
        _ => false,
    }
}

/// Whether one entry is mirrored (see `mirrored`).
pub fn is_mirrored(e: &TreeEntry) -> (r: bool)
    ensures
        r == mirrored(*e),
{
    match e.kind {
        EntryKind::Dir => e.counterpart_is_dir,
        EntryKind::File => match (&e.old_bytes, &e.new_bytes) {
            (Some(a), Some(b)) => same_bytes(a, b),
            _ => false,
        },
        EntryKind::Other => false,
    }
}

/// The old tree is mirrored on the new side, so it may be removed, exactly
/// when every one of its entries is (extra files on the new side do not
/// matter).
pub fn trees_identical(entries: &Vec<TreeEntry>) -> (r: bool)
    ensures
        r == forall|i: int| 0 <= i < entries@.len() ==> mirrored(#[trigger] entries@[i]),
{
    let mut i: usize = 0;
    while i < entries.len()
        invariant
            i <= entries@.len(),
            forall|j: int| 0 <= j < i ==> mirrored(#[trigger] entries@[j]),
        decreases entries@.len() - i,
    {
        if !is_mirrored(&entries[i]) {
            return false;
        }
        i = i + 1;
    }
    true
}

/// The new plugin settings are usable when they parsed as a JSON object.
pub fn settings_valid(v: Option<&JsonValue>) -> (r: bool)
    ensures
        r == match crate::json::opt_model(v) {
            Some(Json::Obj(_)) => true,
            _ => false,
        },
{
    match v {
        Some(JsonValue::Object(_)) => true,
        _ => false,
    }
}

} // verus!
