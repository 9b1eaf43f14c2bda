//! Bringing mods into the store: from the game's mods folder, and from
//! files and folders the user picks (`.pak`, `.zip`, directories).
use vstd::prelude::*;
use crate::text::{concat, contains, starts_with, ends_with, str_contains, str_starts_with, str_ends_with, str_eq};
use crate::paths::{
    file_name_of, file_name_spec, join, join_spec, name_ext, name_stem, ext_spec, stem_spec,
    last_segment, lemma_last_segment_join, lemma_stem_prefix, lemma_ext_of, lemma_join_within, within,
};
use crate::names::{safe_id, safe_id_spec, lemma_safe_id_chars, is_id_char};
use crate::store::{lower_text, to_lower, has_ext_ci, name_has_ext};
use crate::deploy::{ascii_digit, prefix_sep, deploy_prefix_spec, lemma_prefix_shape, not_digit_led};

verus! {

/// What an import or add did: the ids brought into the store, and a line
/// for each entry left out.
#[derive(Debug, PartialEq)]
pub struct ImportResult {
    pub imported: Vec<String>,
    pub skipped: Vec<String>,
}

impl ImportResult {
    /// Nothing done yet.
    pub fn new() -> (r: ImportResult)
        ensures
            r.imported@.len() == 0,
            r.skipped@.len() == 0,
    {
        ImportResult { imported: Vec::new(), skipped: Vec::new() }
    }
}

/// `name: detail`, the form of every skipped line.
pub open spec fn entry_line(name: Seq<char>, detail: Seq<char>) -> Seq<char> {
    name + ": "@ + detail
}

/// Builds `name: detail`.
pub fn entry_message(name: &str, detail: &str) -> (r: String)
    ensures
        r@ == entry_line(name@, detail@),
{
    let a = concat(name, ": ");
    concat(a.as_str(), detail)
}

// ---------------------------------------------------------------------------
// Import from the game's mods folder
// ---------------------------------------------------------------------------

/// What `^\d+[_-](.+)$` captures as group 1 in `s`, if it matches.
pub uninterp spec fn order_prefix_capture(s: Seq<char>) -> Option<Seq<char>>;

/// `s` is one or more ASCII digits, `_` or `-`, then `rest`.
pub open spec fn ascii_ordered_as(s: Seq<char>, k: int, rest: Seq<char>) -> bool {
    &&& 1 <= k < s.len()
    &&& forall|i: int| 0 <= i < k ==> ascii_digit(#[trigger] s[i])
    &&& prefix_sep(s[k])
    &&& rest == s.subrange(k + 1, s.len() as int)
}

/// Calls `regex::Regex::new(r"^\d+[_-](.+)$")`, `captures(name)` and
/// group 1. Trusted: the answer is `order_prefix_capture(name)`; for a name
/// made of ASCII digits, `_` or `-`, and a non-empty rest without a line
/// break, it is that rest (the digits run is taken whole, and `.` matches
/// any character but a line break). The pattern is a constant that
/// compiles, so the `unwrap` does not fail. A name that is empty or whose
/// first character is an ASCII non-digit has no capture (the pattern is
/// anchored and starts with a decimal digit).
#[verifier::external_body]
fn order_prefix_rest(name: &str) -> (r: Option<String>)
    ensures
        match r {
            Some(s) => order_prefix_capture(name@) == Some(s@),
            None => order_prefix_capture(name@) is None,
        },
        not_digit_led(name@) ==> r is None,
        forall|k: int, rest: Seq<char>| #[trigger] ascii_ordered_as(name@, k, rest) && rest.len() > 0 && !rest.contains('\n') ==> opt_view(r) == Some(rest),
{
    let re = regex::Regex::new(r"^\d+[_-](.+)$").unwrap();
    re.captures(name).map(|c| c.get(1).map_or("", |m| m.as_str()).to_string())
}

/// What `^\d+[_-](.+)$` captures in `s`, as far as it is stated: nothing
/// for a name not led by a digit, else `order_prefix_capture`.
pub open spec fn prefix_rest(s: Seq<char>) -> Option<Seq<char>> {
    if not_digit_led(s) {
        None
    } else {
        order_prefix_capture(s)
    }
}

/// The store name of a mods-folder entry: without its order prefix when it
/// has one.
pub open spec fn store_name_spec(name: Seq<char>) -> Seq<char> {
    match prefix_rest(name) {
        Some(s) => s,
        None => name,
    }
}

/// The store name of a mods-folder entry (see `store_name_spec`).
/// Re-importing an entry that a deploy of at most 999 entries named after
/// a folder mod's id (without a line break) gives back that id.
pub fn import_store_name(name: &str) -> (r: String)
    ensures
        r@ == store_name_spec(name@),
        not_digit_led(name@) ==> r@ == name@,
        forall|idx: nat, count: nat, id: Seq<char>|
            idx < count <= 999 && id.len() > 0 && !id.contains('\n') && name@ == #[trigger] (
            deploy_prefix_spec(idx, count) + id) ==> r@ == id,
{
    let r = match order_prefix_rest(name) {
        Some(s) => s,
        None => name.to_owned(),
    };
    proof {
        assert forall|idx: nat, count: nat, id: Seq<char>|
            idx < count <= 999 && id.len() > 0 && !id.contains('\n') && name@ == #[trigger] (
            deploy_prefix_spec(idx, count) + id) implies r@ == id by {
            lemma_prefix_shape(idx, count);
            let w: int = if count < 100 { 2 } else { 3 };
            let pre = deploy_prefix_spec(idx, count);
            assert forall|i: int| 0 <= i < w implies ascii_digit(#[trigger] name@[i]) by {
                assert(name@[i] == pre[i]);
            }
            assert(name@[w] == pre[w]);
            assert(name@.subrange(w + 1, name@.len() as int) =~= id);
            assert(ascii_ordered_as(name@, w, id));
        }
    }
    r
}

/// What happens to one entry of the mods folder.
#[derive(Debug, PartialEq)]
pub enum ImportStep {
    /// Not a mod (`DISABLEMODS.txt`, hidden entries): passed over silently.
    Ignore,
    /// Left out, with the reason.
    Skip { message: String },
    /// Brought into the store under `store_name`.
    Place { store_name: String },
}

/// Model of an import step.
pub enum ImportStepModel {
    Ignore,
    Skip { message: Seq<char> },
    Place { store_name: Seq<char> },
}

impl View for ImportStep {
    type V = ImportStepModel;

    open spec fn view(&self) -> ImportStepModel {
        match self {
            ImportStep::Ignore => ImportStepModel::Ignore,
            ImportStep::Skip { message } => ImportStepModel::Skip { message: message@ },
            ImportStep::Place { store_name } => ImportStepModel::Place { store_name: store_name@ },
        }
    }
}

/// The step for entry `name` (a symlink when `is_link`), when the store
/// already holds its store name exactly when `taken`.
pub open spec fn import_step_spec(name: Seq<char>, is_link: bool, taken: bool) -> ImportStepModel {
    if name == "DISABLEMODS.txt"@ || starts_with(name, "."@) {
        ImportStepModel::Ignore
    } else if is_link {
        ImportStepModel::Skip { message: entry_line(name, "already managed (symlink)"@) }
    } else if taken {
        ImportStepModel::Skip {
            message: entry_line(name, "store already has "@ + store_name_spec(name) + " (collision)"@),
        }
    } else {
        ImportStepModel::Place { store_name: store_name_spec(name) }
    }
}

/// Decides what happens to entry `name` of the mods folder (see
/// `import_step_spec`).
pub fn import_step(name: &str, is_link: bool, taken: bool) -> (r: ImportStep)
    ensures
        r@ == import_step_spec(name@, is_link, taken),
{
    if str_eq(name, "DISABLEMODS.txt") || str_starts_with(name, ".") {
        return ImportStep::Ignore;
    }
    if is_link {
        return ImportStep::Skip { message: entry_message(name, "already managed (symlink)") };
    }
    let store_name = import_store_name(name);
    if taken {
        let a = concat("store already has ", store_name.as_str());
        let b = concat(a.as_str(), " (collision)");
        return ImportStep::Skip { message: entry_message(name, b.as_str()) };
    }
    ImportStep::Place { store_name }
}

/// The line for a missing mods folder.
pub fn mods_dir_missing(path: &str) -> (r: String)
    ensures
        r@ == "Mods dir not found: "@ + path@,
{
    concat("Mods dir not found: ", path)
}

// ---------------------------------------------------------------------------
// Adding picked files and folders
// ---------------------------------------------------------------------------

/// Where a picked path goes in the store.
#[derive(Debug, PartialEq)]
pub enum AddTarget {
    /// Not added, with the line saying why.
    Skip { message: String },
    /// A zip archive, unpacked into the folder `dest` (`final_id` is its
    /// file name); `alt_pak` is the `.pak` of the same id, which also blocks it.
    Zip { fname: String, dest: String, alt_pak: String, final_id: Option<String> },
    /// A `.pak` file, copied to `dest`; `id` is the stem of its name.
    Pak { fname: String, dest: String, id: Option<String> },
    /// A folder, copied to `dest` (`final_id` is its file name).
    Folder { fname: String, dest: String, final_id: Option<String> },
}

/// Model of an add target.
pub enum AddTargetModel {
    Skip { message: Seq<char> },
    Zip { fname: Seq<char>, dest: Seq<char>, alt_pak: Seq<char>, final_id: Option<Seq<char>> },
    Pak { fname: Seq<char>, dest: Seq<char>, id: Option<Seq<char>> },
    Folder { fname: Seq<char>, dest: Seq<char>, final_id: Option<Seq<char>> },
}

/// The view of an optional string.
pub open spec fn opt_view(o: Option<String>) -> Option<Seq<char>> {
    match o {
        Some(s) => Some(s@),
        None => None,
    }
}

impl View for AddTarget {
    type V = AddTargetModel;

    open spec fn view(&self) -> AddTargetModel {
        match self {
            AddTarget::Skip { message } => AddTargetModel::Skip { message: message@ },
            AddTarget::Zip { fname, dest, alt_pak, final_id } => AddTargetModel::Zip {
                fname: fname@,
                dest: dest@,
                alt_pak: alt_pak@,
                final_id: opt_view(*final_id),
            },
            AddTarget::Pak { fname, dest, id } => AddTargetModel::Pak {
                fname: fname@,
                dest: dest@,
                id: opt_view(*id),
            },
            AddTarget::Folder { fname, dest, final_id } => AddTargetModel::Folder {
                fname: fname@,
                dest: dest@,
                final_id: opt_view(*final_id),
            },
        }
    }
}

/// The file name of `p`, or `dflt`.
pub open spec fn name_or(p: Seq<char>, dflt: Seq<char>) -> Seq<char> {
    match file_name_spec(p) {
        Some(n) => n,
        None => dflt,
    }
}

/// The stem of the file name of `p`, or `dflt` when there is no file name.
pub open spec fn stem_or(p: Seq<char>, dflt: Seq<char>) -> Seq<char> {
    match file_name_spec(p) {
        Some(n) => stem_spec(n),
        None => dflt,
    }
}

/// The lowercased extension of `p`'s file name, or empty.
pub open spec fn lower_ext(p: Seq<char>) -> Seq<char> {
    match file_name_spec(p) {
        Some(n) => match ext_spec(n) {
            Some(e) => lower_text(e),
            None => Seq::empty(),
        },
        None => Seq::empty(),
    }
}

/// Where the picked path `p` (typed as `raw`) goes in the store `store`,
/// given whether it exists and is a file or a directory: a `.zip` becomes a
/// folder named by the safe id of its stem, a `.pak` a `.pak` named by the
/// safe id of its stem, a directory a folder named by the safe id of its
/// name; anything else is skipped.
pub open spec fn add_target_spec(
    raw: Seq<char>,
    p: Seq<char>,
    store: Seq<char>,
    exists: bool,
    is_file: bool,
    is_dir: bool,
) -> AddTargetModel {
    let fname = name_or(p, "unnamed"@);
    if !exists {
        AddTargetModel::Skip { message: entry_line(raw, "not found"@) }
    } else if is_file {
        let ext = lower_ext(p);
        if ext == "zip"@ {
            let base_id = safe_id_spec(stem_or(p, "unnamed_mod"@));
            let dest = join_spec(store, base_id);
            AddTargetModel::Zip {
                fname,
                dest,
                alt_pak: join_spec(store, base_id + ".pak"@),
                final_id: file_name_spec(dest),
            }
        } else if ext == "pak"@ {
            let base_id = safe_id_spec(stem_or(p, "unnamed"@));
            let dest = join_spec(store, base_id + ".pak"@);
            AddTargetModel::Pak {
                fname,
                dest,
                id: match file_name_spec(dest) {
                    Some(n) => Some(stem_spec(n)),
                    None => None,
                },
            }
        } else {
            AddTargetModel::Skip {
                message: entry_line(
                    fname,
                    "unsupported file type ."@ + ext + " (only .pak/.zip supported)"@,
                ),
            }
        }
    } else if is_dir {
        let base_id = safe_id_spec(name_or(p, "unnamed_mod"@));
        let dest = join_spec(store, base_id);
        AddTargetModel::Folder { fname, dest, final_id: file_name_spec(dest) }
    } else {
        AddTargetModel::Skip { message: entry_line(fname, "unknown type"@) }
    }
}

/// A store id: not empty, and made only of ASCII letters and digits, `.`,
/// `_` and `-` (no space, no path separator).
pub open spec fn store_id_text(x: Seq<char>) -> bool {
    x.len() > 0 && forall|i: int| 0 <= i < x.len() ==> is_id_char(#[trigger] x[i]) && x[i] != ' '
}

/// An added mod gets a store id: a `.pak` file always gets one, and a zip
/// or a folder gets one whenever its destination has a file name; that id
/// is made only of ASCII letters, digits, `.`, `_` and `-`, whatever the
/// name it was added under. Every destination lies inside the store, and
/// is named after the id (with `.pak` for a `.pak` file).
pub proof fn law_added_ids(raw: Seq<char>, p: Seq<char>, store: Seq<char>, exists: bool, is_file: bool, is_dir: bool)
    ensures
        match add_target_spec(raw, p, store, exists, is_file, is_dir) {
            AddTargetModel::Pak { dest, id, .. } => id matches Some(x) && store_id_text(x)
                && file_name_spec(dest) == Some(x + ".pak"@) && within(dest, store),
            AddTargetModel::Zip { dest, final_id, .. } => within(dest, store) && (final_id matches Some(x)
                ==> store_id_text(x) && file_name_spec(dest) == Some(x)),
            AddTargetModel::Folder { dest, final_id, .. } => within(dest, store) && (final_id matches Some(x)
                ==> store_id_text(x) && file_name_spec(dest) == Some(x)),
            AddTargetModel::Skip { .. } => true,
        },
{
    reveal_strlit(".pak");
    let sz = safe_id_spec(stem_or(p, "unnamed_mod"@));
    let sp = safe_id_spec(stem_or(p, "unnamed"@));
    let sf = safe_id_spec(name_or(p, "unnamed_mod"@));
    lemma_safe_id_chars(stem_or(p, "unnamed_mod"@));
    lemma_safe_id_chars(stem_or(p, "unnamed"@));
    lemma_safe_id_chars(name_or(p, "unnamed_mod"@));
    assert forall|x: Seq<char>| store_id_text(x) implies forall|i: int| 0 <= i < x.len() ==> x[i] != '/' by {
        assert forall|i: int| 0 <= i < x.len() implies x[i] != '/' by {
            assert(is_id_char(x[i]));
        }
    }
    assert(store_id_text(sz) && store_id_text(sp) && store_id_text(sf));
    lemma_last_segment_join(store, sz);
    lemma_last_segment_join(store, sf);
    let n = sp + ".pak"@;
    assert(store_id_text(n)) by {
        assert forall|i: int| 0 <= i < n.len() implies is_id_char(#[trigger] n[i]) && n[i] != ' ' by {
            if i < sp.len() {
                assert(n[i] == sp[i]);
            }
        }
    }
    lemma_last_segment_join(store, n);
    assert(n != seq!['.'] && n != seq!['.', '.']) by {
        assert(n.len() >= 5);
    }
    assert(file_name_spec(join_spec(store, n)) == Some(n));
    reveal_strlit("pak");
    assert(".pak"@ =~= seq!['.'] + "pak"@);
    assert(n =~= sp + seq!['.'] + "pak"@);
    lemma_ext_of(sp, "pak"@);
    lemma_join_within(store, sz);
    lemma_join_within(store, sf);
    lemma_join_within(store, n);
    lemma_stem_prefix(n);
    let st = stem_spec(n);
    assert(store_id_text(st)) by {
        assert forall|i: int| 0 <= i < st.len() implies is_id_char(#[trigger] st[i]) && st[i] != ' ' by {
            assert(st[i] == n[i]);
        }
    }
}

fn name_or_exec(p: &str, dflt: &str) -> (r: String)
    ensures
        r@ == name_or(p@, dflt@),
{
    match file_name_of(p) {
        Some(n) => n,
        None => dflt.to_owned(),
    }
}

fn stem_or_exec(p: &str, dflt: &str) -> (r: String)
    ensures
        r@ == stem_or(p@, dflt@),
{
    match file_name_of(p) {
        Some(n) => name_stem(n.as_str()),
        None => dflt.to_owned(),
    }
}

fn lower_ext_exec(p: &str) -> (r: String)
    ensures
        r@ == lower_ext(p@),
{
    proof {
        reveal_strlit("");
    }
    match file_name_of(p) {
        Some(n) => match name_ext(n.as_str()) {
            Some(e) => to_lower(e.as_str()),
            None => "".to_owned(),
        },
        None => "".to_owned(),
    }
}

/// Decides where a picked path goes (see `add_target_spec`).
pub fn add_target(raw: &str, p: &str, store: &str, exists: bool, is_file: bool, is_dir: bool) -> (r: AddTarget)
    ensures
        r@ == add_target_spec(raw@, p@, store@, exists, is_file, is_dir),
{
    if !exists {
        return AddTarget::Skip { message: entry_message(raw, "not found") };
    }
    let fname = name_or_exec(p, "unnamed");
    if is_file {
        let ext = lower_ext_exec(p);
        if str_eq(ext.as_str(), "zip") {
            let stem = stem_or_exec(p, "unnamed_mod");
            let base_id = safe_id(stem.as_str());
            let dest = join(store, base_id.as_str());
            let pak_name = concat(base_id.as_str(), ".pak");
            let alt_pak = join(store, pak_name.as_str());
            let final_id = file_name_of(dest.as_str());
            return AddTarget::Zip { fname, dest, alt_pak, final_id };
        } else if str_eq(ext.as_str(), "pak") {
            let stem = stem_or_exec(p, "unnamed");
            let base_id = safe_id(stem.as_str());
            let pak_name = concat(base_id.as_str(), ".pak");
            let dest = join(store, pak_name.as_str());
            let id = match file_name_of(dest.as_str()) {
                Some(n) => Some(name_stem(n.as_str())),
                None => None,
            };
            return AddTarget::Pak { fname, dest, id };
        } else {
            let a = concat("unsupported file type .", ext.as_str());
            let b = concat(a.as_str(), " (only .pak/.zip supported)");
            return AddTarget::Skip { message: entry_message(fname.as_str(), b.as_str()) };
        }
    }
    if is_dir {
        let raw_name = name_or_exec(p, "unnamed_mod");
        let base_id = safe_id(raw_name.as_str());
        let dest = join(store, base_id.as_str());
        let final_id = file_name_of(dest.as_str());
        return AddTarget::Folder { fname, dest, final_id };
    }
    AddTarget::Skip { message: entry_message(fname.as_str(), "unknown type") }
}

/// The line for a pick whose target is already in the store.
pub fn duplicate_message(fname: &str) -> (r: String)
    ensures
        r@ == entry_line(fname@, "already exists in store (skipped duplicate)"@),
{
    entry_message(fname, "already exists in store (skipped duplicate)")
}

// ---------------------------------------------------------------------------
// Zip archives
// ---------------------------------------------------------------------------

/// What happens to one member of a zip archive when it is unpacked.
#[derive(Debug, PartialEq)]
pub enum MemberAction {
    /// Left out: it could escape the folder it is unpacked into, or it is
    /// macOS metadata.
    Skip,
    /// A directory.
    Dir,
    /// A file.
    File,
}

/// A member is left out when its name contains `..`, starts with `/` or
/// `\`, or lies under `__MACOSX/`; a name ending in `/` is a directory.
pub open spec fn member_action_spec(name: Seq<char>) -> MemberAction {
    if contains(name, ".."@) || starts_with(name, "/"@) || starts_with(name, "\\"@)
        || starts_with(name, "__MACOSX/"@) {
        MemberAction::Skip
    } else if ends_with(name, "/"@) {
        MemberAction::Dir
    } else {
        MemberAction::File
    }
}

/// Decides what happens to the zip member `name` (see `member_action_spec`).
pub fn member_action(name: &str) -> (r: MemberAction)
    ensures
        r == member_action_spec(name@),
        !(r is Skip) ==> !contains(name@, ".."@) && !starts_with(name@, "/"@),
{
    if str_contains(name, "..") || str_starts_with(name, "/") || str_starts_with(name, "\\")
        || str_starts_with(name, "__MACOSX/") {
        MemberAction::Skip
    } else if str_ends_with(name, "/") {
        MemberAction::Dir
    } else {
        MemberAction::File
    }
}

/// A top-level entry of an unpacked archive.
#[derive(Debug, PartialEq)]
pub struct ZipEntry {
    pub name: String,
    pub is_file: bool,
    pub is_dir: bool,
}

/// How an unpacked archive is brought into the store.
#[derive(Debug, PartialEq)]
pub enum ZipLayout {
    /// Nothing in it.
    Empty,
    /// A single `.pak` file: stored as a `.pak` mod.
    SinglePak,
    /// A single folder: stored as the mod's folder.
    SingleDir,
    /// Anything else: the entries go into the mod's folder.
    Spread,
}

/// The layout of an archive's top-level entries, leaving `__MACOSX` out.
pub open spec fn zip_layout_spec(names: Seq<Seq<char>>, files: Seq<bool>, dirs: Seq<bool>) -> ZipLayout {
    if names.len() == 0 {
        ZipLayout::Empty
    } else if names.len() == 1 && files[0] && has_ext_ci(names[0], "pak"@) {
        ZipLayout::SinglePak
    } else if names.len() == 1 && dirs[0] {
        ZipLayout::SingleDir
    } else {
        ZipLayout::Spread
    }
}

/// The entries that count: all but `__MACOSX`.
pub open spec fn kept_entries(s: Seq<ZipEntry>) -> Seq<ZipEntry>
    decreases s.len(),
{
    if s.len() == 0 {
        s
    } else if s.last().name@ == "__MACOSX"@ {
        kept_entries(s.drop_last())
    } else {
        kept_entries(s.drop_last()).push(s.last())
    }
}

/// Leaves out `__MACOSX`.
pub fn keep_entries(entries: Vec<ZipEntry>) -> (r: Vec<ZipEntry>)
    ensures
        r@ == kept_entries(entries@),
{
    let ghost orig = entries@;
    let n: usize = entries.len();
    let mut rest = entries;
    let mut out: Vec<ZipEntry> = Vec::new();
    let mut i: usize = 0;
    assert(orig.take(0) =~= Seq::<ZipEntry>::empty());
    while rest.len() > 0
        invariant
            orig.len() == n,
            i + rest@.len() == n,
            forall|j: int| 0 <= j < rest@.len() ==> #[trigger] rest@[j] == orig[i + j],
            out@ == kept_entries(orig.take(i as int)),
        decreases rest@.len(),
    {
        let ghost old_rest = rest@;
        assert(old_rest[0] == orig[i + 0]);
        let e = rest.remove(0);
        proof {
            assert(orig.take(i + 1).drop_last() =~= orig.take(i as int));
            assert(orig.take(i + 1).last() == e);
        }
        if !str_eq(e.name.as_str(), "__MACOSX") {
            out.push(e);
        }
        i = i + 1;
        proof {
            assert forall|m: int| 0 <= m < rest@.len() implies #[trigger] rest@[m] == orig[i + m] by {
                assert(rest@[m] == old_rest[m + 1]);
            }
        }
    }
    assert(orig.take(n as int) =~= orig);
    out
}

/// The layout of the kept entries of an archive.
pub fn zip_layout(entries: &Vec<ZipEntry>) -> (r: ZipLayout)
    ensures
        r == zip_layout_spec(
            Seq::new(entries@.len(), |i: int| entries@[i].name@),
            Seq::new(entries@.len(), |i: int| entries@[i].is_file),
            Seq::new(entries@.len(), |i: int| entries@[i].is_dir),
        ),
{
    if entries.len() == 0 {
        ZipLayout::Empty
    } else if entries.len() == 1 && entries[0].is_file && name_has_ext(entries[0].name.as_str(), "pak") {
        ZipLayout::SinglePak
    } else if entries.len() == 1 && entries[0].is_dir {
        ZipLayout::SingleDir
    } else {
        ZipLayout::Spread
    }
}

/// Where the single `.pak` of an archive goes: `<safe id of its stem>.pak`
/// in the store, and the id it is listed under.
pub fn single_pak_target(store: &str, name: &str) -> (r: (String, Option<String>))
    ensures
        r.0@ == join_spec(store@, safe_id_spec(stem_spec(name@)) + ".pak"@),
        opt_view(r.1) == match file_name_spec(r.0@) {
            Some(n) => Some(stem_spec(n)),
            None => None,
        },
{
    let stem = name_stem(name);
    let safe = safe_id(stem.as_str());
    let file = concat(safe.as_str(), ".pak");
    let dest = join(store, file.as_str());
    let id = match file_name_of(dest.as_str()) {
        Some(n) => Some(name_stem(n.as_str())),
        None => None,
    };
    (dest, id)
}

} // verus!
