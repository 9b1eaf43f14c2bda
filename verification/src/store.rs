//! The mod store: what it lists, and the names mods are kept under.
use vstd::prelude::*;
use crate::text::{chars_of, concat, starts_with, str_starts_with, str_eq};
use crate::paths::{lemma_file_name_join, lemma_ext_of, ext_spec, name_ext, name_stem, stem_spec, join, join_spec, file_name_of, file_name_spec, parent_of, parent_spec};
use crate::names::{safe_id, safe_id_spec, lemma_safe_id_chars, is_id_char};
use crate::text::{decimal, u64_to_string};
use crate::sort::{sort_by_text, stable_sort, text_keyed, text_lt, lemma_stable_sort_contains, lemma_stable_sort_len};

verus! {

// ---------------------------------------------------------------------------
// Models
// ---------------------------------------------------------------------------

/// A mod in the store.
#[derive(Debug, PartialEq)]
pub struct Mod {
    pub id: String,
    pub display_name: String,
    /// `pak` for a single `.pak` file, `folder` for a directory.
    pub kind: String,
    pub source_path: String,
    pub size_bytes: u64,
    pub has_lua: bool,
    pub has_pak: bool,
}

/// Model of a mod.
pub struct ModModel {
    pub id: Seq<char>,
    pub display_name: Seq<char>,
    pub kind: Seq<char>,
    pub source_path: Seq<char>,
    pub size_bytes: u64,
    pub has_lua: bool,
    pub has_pak: bool,
}

impl View for Mod {
    type V = ModModel;

    open spec fn view(&self) -> ModModel {
        ModModel {
            id: self.id@,
            display_name: self.display_name@,
            kind: self.kind@,
            source_path: self.source_path@,
            size_bytes: self.size_bytes,
            has_lua: self.has_lua,
            has_pak: self.has_pak,
        }
    }
}

/// The models of a list of mods.
pub open spec fn mod_models(s: Seq<Mod>) -> Seq<ModModel> {
    Seq::new(s.len(), |i: int| s[i]@)
}

/// An entry of the store directory as read from disk.
#[derive(Debug, PartialEq)]
pub struct StoreEntry {
    /// File name.
    pub name: String,
    /// Full path.
    pub path: String,
    pub is_file: bool,
    pub is_dir: bool,
    /// Size of the file, or of all files below the directory.
    pub size_bytes: u64,
    /// Some file below the directory has extension `lua` (any case).
    pub has_lua: bool,
    /// Some file below the directory has extension `pak` (any case).
    pub has_pak: bool,
}

/// Model of a store entry.
pub struct EntryModel {
    pub name: Seq<char>,
    pub path: Seq<char>,
    pub is_file: bool,
    pub is_dir: bool,
    pub size_bytes: u64,
    pub has_lua: bool,
    pub has_pak: bool,
}

impl View for StoreEntry {
    type V = EntryModel;

    open spec fn view(&self) -> EntryModel {
        EntryModel {
            name: self.name@,
            path: self.path@,
            is_file: self.is_file,
            is_dir: self.is_dir,
            size_bytes: self.size_bytes,
            has_lua: self.has_lua,
            has_pak: self.has_pak,
        }
    }
}

// ---------------------------------------------------------------------------
// Case-insensitive comparisons
// ---------------------------------------------------------------------------

/// What `str::to_lowercase` gives for `s`.
pub uninterp spec fn lowercase(s: Seq<char>) -> Seq<char>;

/// `s` with the ASCII capitals `A`-`Z` turned into `a`-`z`.
pub open spec fn ascii_lowered(s: Seq<char>) -> Seq<char> {
    Seq::new(s.len(), |i: int| if 'A' <= s[i] && s[i] <= 'Z' { ((s[i] as u32) + 32) as char } else { s[i] })
}

/// Calls `str::to_lowercase`. Trusted: the result is `lowercase(s)`
/// (Unicode lowercase mapping, a function of `s` alone); for a text made of
/// ASCII characters it is the text with `A`-`Z` turned into `a`-`z` (the
/// Unicode lowercase of an ASCII character is its ASCII lowercase, as
/// `str::to_ascii_lowercase`'s documentation says). Nothing more is stated
/// of it.
#[verifier::external_body]
pub(crate) fn to_lower(s: &str) -> (r: String)
    ensures
        r@ == lowercase(s@),
        (forall|i: int| 0 <= i < s@.len() ==> (#[trigger] s@[i] as u32) < 128) ==> r@ == ascii_lowered(s@),
{
    s.to_lowercase()
}

/// The lowercase of `s` as far as it is stated: the ASCII lowercase of an
/// ASCII text, `lowercase` of any other.
pub open spec fn lower_text(s: Seq<char>) -> Seq<char> {
    if forall|i: int| 0 <= i < s.len() ==> (#[trigger] s[i] as u32) < 128 {
        ascii_lowered(s)
    } else {
        lowercase(s)
    }
}

/// Code point of the ASCII lowercase of one character.
pub open spec fn ascii_lower(c: char) -> u32 {
    if 'A' <= c && c <= 'Z' {
        ((c as u32) + 32) as u32
    } else {
        c as u32
    }
}

/// `eq_ignore_ascii_case`: equal after ASCII lowercasing.
pub open spec fn eq_ascii_ci(a: Seq<char>, b: Seq<char>) -> bool {
    a.len() == b.len() && forall|i: int| 0 <= i < a.len() ==> ascii_lower(a[i]) == ascii_lower(b[i])
}

fn lower_char(c: char) -> (r: u32)
    ensures
        r == ascii_lower(c),
{
    if 'A' <= c && c <= 'Z' {
        (c as u32) + 32
    } else {
        c as u32
    }
}

/// Whether two strings are equal ignoring ASCII case.
pub fn eq_ignore_ascii_case(a: &str, b: &str) -> (r: bool)
    ensures
        r == eq_ascii_ci(a@, b@),
{
    let x = chars_of(a);
    let y = chars_of(b);
    if x.len() != y.len() {
        return false;
    }
    let mut i: usize = 0;
    while i < x.len()
        invariant
            x@ == a@,
            y@ == b@,
            x@.len() == y@.len(),
            i <= x@.len(),
            forall|j: int| 0 <= j < i ==> ascii_lower(x@[j]) == ascii_lower(y@[j]),
        decreases x@.len() - i,
    {
        if lower_char(x[i]) != lower_char(y[i]) {
            return false;
        }
        i = i + 1;
    }
    true
}

/// The file name `name` has extension `ext`, ignoring ASCII case.
pub open spec fn has_ext_ci(name: Seq<char>, ext: Seq<char>) -> bool {
    match ext_spec(name) {
        Some(e) => eq_ascii_ci(e, ext),
        None => false,
    }
}

/// Whether file name `name` has extension `ext`, ignoring ASCII case.
pub fn name_has_ext(name: &str, ext: &str) -> (r: bool)
    ensures
        r == has_ext_ci(name@, ext@),
{
    match name_ext(name) {
        Some(e) => eq_ignore_ascii_case(e.as_str(), ext),
        None => false,
    }
}

// ---------------------------------------------------------------------------
// Listing the store
// ---------------------------------------------------------------------------

/// The mod a store entry stands for: a `.pak` file (any case) is a `pak`
/// mod named by its stem, a directory a `folder` mod; hidden entries (name
/// starting with `.`) and other files are not mods.
pub open spec fn mod_of_entry(e: EntryModel) -> Option<ModModel> {
    if starts_with(e.name, seq!['.']) {
        None
    } else if e.is_file {
        if has_ext_ci(e.name, "pak"@) {
            Some(ModModel {
                id: stem_spec(e.name),
                display_name: e.name,
                kind: "pak"@,
                source_path: e.path,
                size_bytes: e.size_bytes,
                has_lua: false,
                has_pak: true,
            })
        } else {
            None
        }
    } else if e.is_dir {
        Some(ModModel {
            id: e.name,
            display_name: e.name,
            kind: "folder"@,
            source_path: e.path,
            size_bytes: e.size_bytes,
            has_lua: e.has_lua,
            has_pak: e.has_pak,
        })
    } else {
        None
    }
}

/// The mods among `s`, in order.
pub open spec fn mods_of(s: Seq<EntryModel>) -> Seq<ModModel>
    decreases s.len(),
{
    if s.len() == 0 {
        Seq::empty()
    } else {
        match mod_of_entry(s.last()) {
            Some(m) => mods_of(s.drop_last()).push(m),
            None => mods_of(s.drop_last()),
        }
    }
}

/// The entries keyed by their lowercased names.
pub open spec fn by_lower_name(s: Seq<StoreEntry>) -> Seq<(Seq<char>, StoreEntry)> {
    Seq::new(s.len(), |i: int| (lower_text(s[i].name@), s[i]))
}

/// The entries of a keyed list.
pub open spec fn keyed_entries(s: Seq<(Seq<char>, StoreEntry)>) -> Seq<EntryModel> {
    Seq::new(s.len(), |i: int| s[i].1@)
}

/// The store listing: the entries sorted by lowercased name (stably), each
/// turned into its mod where it is one.
pub open spec fn store_mods_spec(entries: Seq<StoreEntry>) -> Seq<ModModel> {
    mods_of(keyed_entries(stable_sort(by_lower_name(entries), text_lt())))
}

fn mod_from_entry(e: StoreEntry) -> (r: Option<Mod>)
    ensures
        match r {
            Some(m) => mod_of_entry(e@) == Some(m@),
            None => mod_of_entry(e@) is None,
        },
{
    proof {
        reveal_strlit(".");
        assert("."@ =~= seq!['.']);
    }
    if str_starts_with(e.name.as_str(), ".") {
        return None;
    }
    if e.is_file {
        if name_has_ext(e.name.as_str(), "pak") {
            let id = name_stem(e.name.as_str());
            return Some(Mod {
                id,
                display_name: e.name,
                kind: "pak".to_owned(),
                source_path: e.path,
                size_bytes: e.size_bytes,
                has_lua: false,
                has_pak: true,
            });
        }
        return None;
    }
    if e.is_dir {
        let id = e.name.clone();
        return Some(Mod {
            id,
            display_name: e.name,
            kind: "folder".to_owned(),
            source_path: e.path,
            size_bytes: e.size_bytes,
            has_lua: e.has_lua,
            has_pak: e.has_pak,
        });
    }
    None
}

/// Lists the mods of the store from its directory entries (see
/// `store_mods_spec`).
pub fn store_mods(entries: Vec<StoreEntry>) -> (r: Vec<Mod>)
    ensures
        mod_models(r@) == store_mods_spec(entries@),
{
    let ghost orig = entries@;
    let mut keyed: Vec<(String, StoreEntry)> = Vec::new();
    let mut rest = entries;
    let n: usize = rest.len();
    let mut i: usize = 0;
    while rest.len() > 0
        invariant
            orig.len() == n,
            i + rest@.len() == n,
            forall|j: int| 0 <= j < rest@.len() ==> #[trigger] rest@[j] == orig[i + j],
            keyed@.len() == i,
            text_keyed(keyed@) == by_lower_name(orig.take(i as int)),
        decreases rest@.len(),
    {
        let ghost old_rest = rest@;
        assert(old_rest[0] == orig[i + 0]);
        let e = rest.remove(0);
        assert(e == orig[i as int]);
        let k = to_lower(e.name.as_str());
        let ghost before = keyed@;
        keyed.push((k, e));
        proof {
            assert forall|j: int| 0 <= j < i + 1 implies #[trigger] text_keyed(keyed@)[j] == by_lower_name(orig.take(i + 1))[j] by {
                if j < i {
                    assert(text_keyed(keyed@)[j] == text_keyed(before)[j]);
                    assert(by_lower_name(orig.take(i + 1))[j] == by_lower_name(orig.take(i as int))[j]);
                }
            }
            assert(text_keyed(keyed@) =~= by_lower_name(orig.take(i + 1)));
        }
        i = i + 1;
        proof {
            assert forall|m: int| 0 <= m < rest@.len() implies #[trigger] rest@[m] == orig[i + m] by {
                assert(rest@[m] == old_rest[m + 1]);
            }
        }
    }
    assert(orig.take(n as int) =~= orig);
    let sorted = sort_by_text(keyed);
    let ghost ss = text_keyed(sorted@);
    let ghost es = keyed_entries(ss);
    assert(ss.len() == sorted@.len());
    let mut out: Vec<Mod> = Vec::new();
    let mut rest = sorted;
    let m: usize = rest.len();
    let mut i: usize = 0;
    assert(es.take(0) =~= Seq::<EntryModel>::empty());
    assert(mod_models(out@) =~= Seq::<ModModel>::empty());
    while rest.len() > 0
        invariant
            es.len() == m,
            ss.len() == m,
            es == keyed_entries(ss),
            i + rest@.len() == m,
            forall|j: int| 0 <= j < rest@.len() ==> #[trigger] rest@[j].1@ == es[i + j],
            mod_models(out@) == mods_of(es.take(i as int)),
        decreases rest@.len(),
    {
        let ghost old_rest = rest@;
        assert(old_rest[0].1@ == es[i + 0]);
        let (_, e) = rest.remove(0);
        let ghost em = e@;
        let ghost before = out@;
        proof {
            assert(es.take(i + 1).drop_last() =~= es.take(i as int));
            assert(es.take(i + 1).last() == em);
        }
        match mod_from_entry(e) {
            Some(md) => {
                out.push(md);
                assert(mod_models(out@) =~= mod_models(before).push(md@));
            },
            None => {},
        }
        i = i + 1;
        proof {
            assert forall|q: int| 0 <= q < rest@.len() implies #[trigger] rest@[q].1@ == es[i + q] by {
                assert(rest@[q] == old_rest[q + 1]);
            }
        }
    }
    assert(es.take(m as int) =~= es);
    out
}

// ---------------------------------------------------------------------------
// Renaming and removing store mods
// ---------------------------------------------------------------------------

/// Index of the first mod with id `id` at or after `i`.
pub open spec fn first_with_id(mods: Seq<ModModel>, id: Seq<char>, i: int) -> Option<int>
    decreases mods.len() - i,
{
    if i < 0 || i >= mods.len() {
        None
    } else if mods[i].id == id {
        Some(i)
    } else {
        first_with_id(mods, id, i + 1)
    }
}

fn first_with_id_exec(mods: &Vec<Mod>, id: &str) -> (r: Option<usize>)
    ensures
        match r {
            Some(j) => first_with_id(mod_models(mods@), id@, 0) == Some(j as int) && j < mods@.len(),
            None => first_with_id(mod_models(mods@), id@, 0) is None,
        },
{
    let ghost mm = mod_models(mods@);
    let mut i: usize = 0;
    while i < mods.len()
        invariant
            i <= mods@.len(),
            mm == mod_models(mods@),
            first_with_id(mm, id@, 0) == first_with_id(mm, id@, i as int),
        decreases mods@.len() - i,
    {
        if str_eq(mods[i].id.as_str(), id) {
            return Some(i);
        }
        i = i + 1;
    }
    None
}

/// The line for an id the store does not have.
pub open spec fn not_in_store(id: Seq<char>) -> Seq<char> {
    "Mod "@ + id + " not found in store"@
}

/// What renaming a store mod comes to.
#[derive(Debug, PartialEq)]
pub enum RenamePlan {
    /// The new name gives the same id: nothing to do.
    Same { id: String },
    /// Move `source` to `dest`; the mod's id becomes `new_id`.
    Move { source: String, dest: String, new_id: String },
}

/// Model of a rename plan.
pub enum RenameModel {
    Same { id: Seq<char> },
    Move { source: Seq<char>, dest: Seq<char>, new_id: Seq<char> },
}

impl View for RenamePlan {
    type V = RenameModel;

    open spec fn view(&self) -> RenameModel {
        match self {
            RenamePlan::Same { id } => RenameModel::Same { id: id@ },
            RenamePlan::Move { source, dest, new_id } => RenameModel::Move {
                source: source@,
                dest: dest@,
                new_id: new_id@,
            },
        }
    }
}

/// Renaming mod `id` to `new_name`: the first mod with that id moves to the
/// safe id of the new name (keeping `.pak` for a pak mod) in `store`.
pub open spec fn rename_spec(mods: Seq<ModModel>, id: Seq<char>, new_name: Seq<char>, store: Seq<char>) -> Result<RenameModel, Seq<char>> {
    match first_with_id(mods, id, 0) {
        None => Err(not_in_store(id)),
        Some(j) => {
            let m = mods[j];
            let safe = safe_id_spec(new_name);
            let pak = m.kind == "pak"@;
            let dest = if pak {
                join_spec(store, safe + ".pak"@)
            } else {
                join_spec(store, safe)
            };
            let new_id = if pak {
                match file_name_spec(dest) {
                    Some(n) => stem_spec(n),
                    None => safe,
                }
            } else {
                safe
            };
            if new_id == id {
                Ok(RenameModel::Same { id })
            } else {
                Ok(RenameModel::Move { source: m.source_path, dest, new_id })
            }
        },
    }
}

/// A renamed mod is listed under its new id: where renaming plans a move to
/// `dest`, the entry the move leaves there (a file for a pak mod, a folder
/// otherwise) is listed by the next scan as a mod with the new id, found at
/// `dest`. This holds whenever the id made from the new name does not start
/// with a dot; an entry named so is hidden from the scan.
pub proof fn law_renamed_listed(
    mods: Seq<ModModel>,
    id: Seq<char>,
    new_name: Seq<char>,
    store: Seq<char>,
    size: u64,
    has_lua: bool,
    has_pak: bool,
)
    requires
        safe_id_spec(new_name)[0] != '.',
    ensures
        rename_spec(mods, id, new_name, store) matches Ok(RenameModel::Move { dest, new_id, .. }) ==> {
            let pak = mods[first_with_id(mods, id, 0)->Some_0].kind == "pak"@;
            &&& file_name_spec(dest) is Some
            &&& mod_of_entry(
                (EntryModel {
                    name: file_name_spec(dest)->Some_0,
                    path: dest,
                    is_file: pak,
                    is_dir: !pak,
                    size_bytes: size,
                    has_lua,
                    has_pak,
                }),
            ) matches Some(m)
            &&& m.id == new_id
            &&& m.source_path == dest
        },
{
    let safe = safe_id_spec(new_name);
    lemma_safe_id_chars(new_name);
    assert forall|i: int| 0 <= i < safe.len() implies safe[i] != '/' by {
        assert(is_id_char(safe[i]));
    }
    reveal_strlit(".pak");
    reveal_strlit("pak");
    let ext: Seq<char> = "pak"@;
    assert(".pak"@ =~= seq!['.'] + ext);
    let x = safe + ".pak"@;
    assert(x =~= safe + seq!['.'] + ext);
    assert(x[0] == safe[0]);
    assert forall|i: int| 0 <= i < x.len() implies x[i] != '/' by {
        if i < safe.len() {
            assert(x[i] == safe[i]);
        }
    }
    lemma_file_name_join(store, x);
    lemma_file_name_join(store, safe);
    lemma_ext_of(safe, ext);
    assert(!starts_with(x, seq!['.'])) by {
        if starts_with(x, seq!['.']) {
            assert(x.subrange(0, 1)[0] == x[0]);
        }
    }
    assert(!starts_with(safe, seq!['.'])) by {
        if starts_with(safe, seq!['.']) {
            assert(safe.subrange(0, 1)[0] == safe[0]);
        }
    }
}

proof fn lemma_mods_of_contains(s: Seq<EntryModel>, m: ModModel)
    ensures
        mods_of(s).contains(m) <==> exists|i: int| 0 <= i < s.len() && mod_of_entry(#[trigger] s[i]) == Some(m),
    decreases s.len(),
{
    if s.len() > 0 {
        let rest = s.drop_last();
        lemma_mods_of_contains(rest, m);
        let r = mods_of(rest);
        if mods_of(s).contains(m) {
            let q = choose|q: int| 0 <= q < mods_of(s).len() && mods_of(s)[q] == m;
            if mod_of_entry(s.last()) is Some && q == r.len() {
                assert(mod_of_entry(s[s.len() - 1]) == Some(m));
            } else {
                assert(r[q] == m);
                assert(r.contains(m));
                let i = choose|i: int| 0 <= i < rest.len() && mod_of_entry(#[trigger] rest[i]) == Some(m);
                assert(s[i] == rest[i]);
            }
        }
        if exists|i: int| 0 <= i < s.len() && mod_of_entry(#[trigger] s[i]) == Some(m) {
            let i = choose|i: int| 0 <= i < s.len() && mod_of_entry(#[trigger] s[i]) == Some(m);
            if i == s.len() - 1 {
                assert(mods_of(s)[r.len() as int] == m);
            } else {
                assert(rest[i] == s[i]);
                assert(r.contains(m));
                let q = choose|q: int| 0 <= q < r.len() && r[q] == m;
                assert(mods_of(s)[q] == m);
            }
        }
    }
}

/// A mod is in the store listing exactly when some entry stands for it.
proof fn lemma_listing_contains(es: Seq<StoreEntry>, m: ModModel)
    ensures
        store_mods_spec(es).contains(m) <==> exists|i: int| 0 <= i < es.len() && mod_of_entry(#[trigger] es[i]@) == Some(m),
{
    let b = by_lower_name(es);
    let srt = stable_sort(b, text_lt());
    let ke = keyed_entries(srt);
    lemma_stable_sort_len(b, text_lt());
    lemma_mods_of_contains(ke, m);
    if store_mods_spec(es).contains(m) {
        let j = choose|j: int| 0 <= j < ke.len() && mod_of_entry(#[trigger] ke[j]) == Some(m);
        lemma_stable_sort_contains(b, text_lt(), srt[j]);
        assert(srt.contains(srt[j]));
        let i = choose|i: int| 0 <= i < b.len() && b[i] == srt[j];
        assert(es[i]@ == ke[j]);
    }
    if exists|i: int| 0 <= i < es.len() && mod_of_entry(#[trigger] es[i]@) == Some(m) {
        let i = choose|i: int| 0 <= i < es.len() && mod_of_entry(#[trigger] es[i]@) == Some(m);
        lemma_stable_sort_contains(b, text_lt(), b[i]);
        assert(b.contains(b[i]));
        let j = choose|j: int| 0 <= j < srt.len() && srt[j] == b[i];
        assert(ke[j] == es[i]@);
    }
}

proof fn lemma_first_with_id(mods: Seq<ModModel>, id: Seq<char>, i: int)
    requires
        0 <= i,
    ensures
        first_with_id(mods, id, i) matches Some(j) ==> i <= j < mods.len() && mods[j].id == id,
        (exists|q: int| i <= q < mods.len() && #[trigger] mods[q].id == id) ==> first_with_id(mods, id, i) is Some,
    decreases mods.len() - i,
{
    if i < mods.len() && mods[i].id != id {
        lemma_first_with_id(mods, id, i + 1);
        if exists|q: int| i <= q < mods.len() && #[trigger] mods[q].id == id {
            let q = choose|q: int| i <= q < mods.len() && #[trigger] mods[q].id == id;
            assert(q != i);
        }
    }
}

/// After a rename the mod is listed under its new id only: when the store
/// listing comes from entries among which entry `k` alone is a mod with id
/// `id`, and renaming `id` plans a move, then once that entry is replaced
/// by what the move leaves at the destination, the listing has a mod with
/// the new id and none with the old one. As for `law_renamed_listed`, the
/// id made from the new name must not start with a dot.
pub proof fn law_rename_relisted(
    before: Seq<StoreEntry>,
    k: int,
    moved: StoreEntry,
    id: Seq<char>,
    new_name: Seq<char>,
    store: Seq<char>,
)
    requires
        safe_id_spec(new_name)[0] != '.',
        0 <= k < before.len(),
        mod_of_entry(before[k]@) is Some,
        mod_of_entry(before[k]@)->Some_0.id == id,
        forall|j: int|
            0 <= j < before.len() && j != k && mod_of_entry(#[trigger] before[j]@) is Some
                ==> mod_of_entry(before[j]@)->Some_0.id != id,
    ensures
        ({
            let pak = mod_of_entry(before[k]@)->Some_0.kind == "pak"@;
            rename_spec(store_mods_spec(before), id, new_name, store) matches Ok(
                RenameModel::Move { dest, new_id, .. },
            ) ==> (moved@ == (EntryModel {
                name: file_name_spec(dest)->Some_0,
                path: dest,
                is_file: pak,
                is_dir: !pak,
                size_bytes: moved.size_bytes,
                has_lua: moved.has_lua,
                has_pak: moved.has_pak,
            }) ==> {
                let listed = store_mods_spec(before.update(k, moved));
                &&& exists|i: int| 0 <= i < listed.len() && #[trigger] listed[i].id == new_id
                &&& forall|i: int| 0 <= i < listed.len() ==> #[trigger] listed[i].id != id
            })
        }),
{
    let mods = store_mods_spec(before);
    let m0 = mod_of_entry(before[k]@)->Some_0;
    let after = before.update(k, moved);
    lemma_listing_contains(before, m0);
    let q0 = choose|q: int| 0 <= q < mods.len() && mods[q] == m0;
    lemma_first_with_id(mods, id, 0);
    assert(mods[q0].id == id);
    let j = first_with_id(mods, id, 0)->Some_0;
    lemma_listing_contains(before, mods[j]);
    assert(mods.contains(mods[j]));
    let i = choose|i: int| 0 <= i < before.len() && mod_of_entry(#[trigger] before[i]@) == Some(mods[j]);
    assert(i == k);
    assert(mods[j] == m0);
    match rename_spec(mods, id, new_name, store) {
        Ok(RenameModel::Move { source, dest, new_id }) => {
            let pak = m0.kind == "pak"@;
            let e = EntryModel {
                name: file_name_spec(dest)->Some_0,
                path: dest,
                is_file: pak,
                is_dir: !pak,
                size_bytes: moved.size_bytes,
                has_lua: moved.has_lua,
                has_pak: moved.has_pak,
            };
            if moved@ == e {
                law_renamed_listed(mods, id, new_name, store, moved.size_bytes, moved.has_lua, moved.has_pak);
                let mm = mod_of_entry(e)->Some_0;
                assert(mm.id == new_id);
                assert(new_id != id);
                let listed = store_mods_spec(after);
                lemma_listing_contains(after, mm);
                assert(after[k]@ == e);
                assert(listed.contains(mm));
                assert forall|t: int| 0 <= t < listed.len() implies #[trigger] listed[t].id != id by {
                    lemma_listing_contains(after, listed[t]);
                    assert(listed.contains(listed[t]));
                    let a = choose|a: int| 0 <= a < after.len() && mod_of_entry(#[trigger] after[a]@) == Some(listed[t]);
                    if a != k {
                        assert(after[a] == before[a]);
                    }
                }
            }
        },
        _ => {},
    }
}

/// A listed mod keeps what its store entry says of it: its path, its size
/// and its name, whether it is a `.pak` file or a folder; a `.pak` file is a
/// `pak` mod named by its stem, a folder a `folder` mod named by its name
/// with its own flags; hidden entries are never listed and visible folders
/// always are; and every mod of the store listing comes from one of the
/// entries, with that path and size.
pub proof fn law_listing_from_entries(es: Seq<StoreEntry>, e: EntryModel)
    ensures
        mod_of_entry(e) matches Some(m) ==> m.source_path == e.path && m.size_bytes == e.size_bytes
            && m.display_name == e.name,
        mod_of_entry(e) matches Some(m) ==> (if e.is_file {
            m.kind == "pak"@ && m.id == stem_spec(e.name) && m.has_pak && !m.has_lua
        } else {
            m.kind == "folder"@ && m.id == e.name && m.has_pak == e.has_pak && m.has_lua == e.has_lua
        }),
        starts_with(e.name, seq!['.']) ==> mod_of_entry(e) is None,
        !starts_with(e.name, seq!['.']) && e.is_dir && !e.is_file ==> mod_of_entry(e) is Some,
        forall|i: int|
            0 <= i < store_mods_spec(es).len() ==> exists|j: int|
                0 <= j < es.len() && (#[trigger] store_mods_spec(es)[i]).source_path == es[j].path@
                    && store_mods_spec(es)[i].size_bytes == es[j].size_bytes,
{
    assert forall|i: int| 0 <= i < store_mods_spec(es).len() implies exists|j: int|
        0 <= j < es.len() && (#[trigger] store_mods_spec(es)[i]).source_path == es[j].path@
            && store_mods_spec(es)[i].size_bytes == es[j].size_bytes by {
        let m = store_mods_spec(es)[i];
        lemma_listing_contains(es, m);
        assert(store_mods_spec(es).contains(m));
        let j = choose|j: int| 0 <= j < es.len() && mod_of_entry(#[trigger] es[j]@) == Some(m);
        assert(es[j]@.path == es[j].path@);
    }
}

/// Plans renaming store mod `id` to `new_name` (see `rename_spec`).
pub fn rename_plan(mods: &Vec<Mod>, id: &str, new_name: &str, store: &str) -> (r: Result<RenamePlan, String>)
    ensures
        match r {
            Ok(p) => rename_spec(mod_models(mods@), id@, new_name@, store@) == Ok::<RenameModel, Seq<char>>(p@),
            Err(e) => rename_spec(mod_models(mods@), id@, new_name@, store@) == Err::<RenameModel, Seq<char>>(e@),
        },
{
    let j = match first_with_id_exec(mods, id) {
        Some(j) => j,
        None => {
            let a = concat("Mod ", id);
            return Err(concat(a.as_str(), " not found in store"));
        },
    };
    let m = &mods[j];
    let safe = safe_id(new_name);
    let pak = str_eq(m.kind.as_str(), "pak");
    let dest = if pak {
        let f = concat(safe.as_str(), ".pak");
        join(store, f.as_str())
    } else {
        join(store, safe.as_str())
    };
    let new_id = if pak {
        match file_name_of(dest.as_str()) {
            Some(n) => name_stem(n.as_str()),
            None => safe,
        }
    } else {
        safe
    };
    if str_eq(new_id.as_str(), id) {
        return Ok(RenamePlan::Same { id: id.to_owned() });
    }
    Ok(RenamePlan::Move { source: m.source_path.clone(), dest, new_id })
}

/// Where removing store mod `id` looks: the first mod with that id is
/// removed at its path; otherwise `<id>` and then `<id>.pak` in the store,
/// whichever exists first.
pub open spec fn remove_targets_spec(mods: Seq<ModModel>, id: Seq<char>, store: Seq<char>) -> (bool, Seq<Seq<char>>) {
    match first_with_id(mods, id, 0) {
        Some(j) => (true, seq![mods[j].source_path]),
        None => (false, seq![join_spec(store, id), join_spec(store, id + ".pak"@)]),
    }
}

/// The paths removing store mod `id` considers (see `remove_targets_spec`):
/// `(true, [path])` for a listed mod, `(false, candidates)` otherwise.
pub fn remove_targets(mods: &Vec<Mod>, id: &str, store: &str) -> (r: (bool, Vec<String>))
    ensures
        (r.0, crate::deploy::views(r.1@)) == remove_targets_spec(mod_models(mods@), id@, store@),
{
    match first_with_id_exec(mods, id) {
        Some(j) => {
            let mut v: Vec<String> = Vec::new();
            v.push(mods[j].source_path.clone());
            assert(crate::deploy::views(v@) =~= seq![mods@[j as int].source_path@]);
            (true, v)
        },
        None => {
            let mut v: Vec<String> = Vec::new();
            v.push(join(store, id));
            let f = concat(id, ".pak");
            v.push(join(store, f.as_str()));
            assert(crate::deploy::views(v@) =~= seq![join_spec(store@, id@), join_spec(store@, id@ + ".pak"@)]);
            (false, v)
        },
    }
}

/// The line for an id that nothing in the store matches.
pub fn not_in_store_message(id: &str) -> (r: String)
    ensures
        r@ == not_in_store(id@),
{
    let a = concat("Mod ", id);
    concat(a.as_str(), " not found in store")
}

// ---------------------------------------------------------------------------
// Free names
// ---------------------------------------------------------------------------

/// The `i`-th alternative to a taken path: `<stem>_<i><.ext>` beside it.
pub open spec fn numbered(parent: Seq<char>, stem: Seq<char>, ext: Seq<char>, i: nat) -> Seq<char> {
    join_spec(parent, stem + seq!['_'] + decimal(i) + ext)
}

/// The first alternative from `i` to 99 that is not taken.
pub open spec fn first_free(parent: Seq<char>, stem: Seq<char>, ext: Seq<char>, taken: Seq<Seq<char>>, i: nat) -> Option<Seq<char>>
    decreases 100 - i,
{
    if i >= 100 {
        None
    } else if !taken.contains(numbered(parent, stem, ext, i)) {
        Some(numbered(parent, stem, ext, i))
    } else {
        first_free(parent, stem, ext, taken, i + 1)
    }
}

proof fn lemma_first_free(parent: Seq<char>, stem: Seq<char>, ext: Seq<char>, taken: Seq<Seq<char>>, i: nat)
    ensures
        first_free(parent, stem, ext, taken, i) matches Some(c) ==> !taken.contains(c),
    decreases 100 - i,
{
    if i < 100 && taken.contains(numbered(parent, stem, ext, i)) {
        lemma_first_free(parent, stem, ext, taken, i + 1);
    }
}

/// A store path for `base` that is not taken: `base` itself when free,
/// else the first free `<stem>_<i><.ext>` beside it (`i` from 1 to 99),
/// else `base`. Without a parent the alternatives go in `.`; without a file
/// name the stem is `mod`.
pub open spec fn unique_spec(base: Seq<char>, taken: Seq<Seq<char>>) -> Seq<char> {
    if !taken.contains(base) {
        base
    } else {
        let parent = match parent_spec(base) {
            Some(p) => p,
            None => seq!['.'],
        };
        let stem = match file_name_spec(base) {
            Some(n) => stem_spec(n),
            None => "mod"@,
        };
        let ext = match file_name_spec(base) {
            Some(n) => match ext_spec(n) {
                Some(e) => seq!['.'] + e,
                None => Seq::empty(),
            },
            None => Seq::empty(),
        };
        match first_free(parent, stem, ext, taken, 1) {
            Some(c) => c,
            None => base,
        }
    }
}

fn is_taken(taken: &Vec<String>, p: &str) -> (r: bool)
    ensures
        r == crate::deploy::views(taken@).contains(p@),
{
    let mut i: usize = 0;
    while i < taken.len()
        invariant
            i <= taken@.len(),
            forall|j: int| 0 <= j < i ==> taken@[j]@ != p@,
        decreases taken@.len() - i,
    {
        if str_eq(taken[i].as_str(), p) {
            assert(crate::deploy::views(taken@)[i as int] == p@);
            return true;
        }
        i = i + 1;
    }
    assert forall|j: int| 0 <= j < taken@.len() implies crate::deploy::views(taken@)[j] != p@ by {}
    false
}

/// A free store path for `base`, given the paths that exist (see
/// `unique_spec`). What it gives is free unless it is `base` itself, which
/// happens only when `base` and all its alternatives are taken.
pub fn unique_store_path(base: &str, taken: &Vec<String>) -> (r: String)
    ensures
        r@ == unique_spec(base@, crate::deploy::views(taken@)),
        crate::deploy::views(taken@).contains(r@) ==> r@ == base@,
{
    let ghost tv = crate::deploy::views(taken@);
    proof {
        lemma_first_free(
            match parent_spec(base@) {
                Some(p) => p,
                None => seq!['.'],
            },
            match file_name_spec(base@) {
                Some(n) => stem_spec(n),
                None => "mod"@,
            },
            match file_name_spec(base@) {
                Some(n) => match ext_spec(n) {
                    Some(e) => seq!['.'] + e,
                    None => Seq::empty(),
                },
                None => Seq::empty(),
            },
            tv,
            1,
        );
    }
    if !is_taken(taken, base) {
        return base.to_owned();
    }
    proof {
        reveal_strlit(".");
        reveal_strlit("_");
        reveal_strlit("");
        assert("."@ =~= seq!['.']);
        assert("_"@ =~= seq!['_']);
    }
    let parent = match parent_of(base) {
        Some(p) => p,
        None => ".".to_owned(),
    };
    let name = file_name_of(base);
    let stem = match &name {
        Some(n) => name_stem(n.as_str()),
        None => "mod".to_owned(),
    };
    let ext = match &name {
        Some(n) => match name_ext(n.as_str()) {
            Some(e) => concat(".", e.as_str()),
            None => "".to_owned(),
        },
        None => "".to_owned(),
    };
    assert(parent@ == match parent_spec(base@) {
        Some(p) => p,
        None => seq!['.'],
    });
    assert(stem@ == match file_name_spec(base@) {
        Some(n) => stem_spec(n),
        None => "mod"@,
    });
    assert(ext@ == match file_name_spec(base@) {
        Some(n) => match ext_spec(n) {
            Some(e) => seq!['.'] + e,
            None => Seq::<char>::empty(),
        },
        None => Seq::<char>::empty(),
    });
    assert(unique_spec(base@, tv) == match first_free(parent@, stem@, ext@, tv, 1) {
        Some(c) => c,
        None => base@,
    });
    let mut i: u64 = 1;
    while i < 100
        invariant
            1 <= i <= 100,
            tv == crate::deploy::views(taken@),
            first_free(parent@, stem@, ext@, tv, 1) == first_free(parent@, stem@, ext@, tv, i as nat),
            unique_spec(base@, tv) == match first_free(parent@, stem@, ext@, tv, 1) {
                Some(c) => c,
                None => base@,
            },
        decreases 100 - i,
    {
        proof {
            reveal_strlit("_");
            assert("_"@ =~= seq!['_']);
        }
        let n = u64_to_string(i);
        let a = concat(stem.as_str(), "_");
        let b = concat(a.as_str(), n.as_str());
        let c = concat(b.as_str(), ext.as_str());
        let cand = join(parent.as_str(), c.as_str());
        assert(cand@ == numbered(parent@, stem@, ext@, i as nat));
        if !is_taken(taken, cand.as_str()) {
            return cand;
        }
        i = i + 1;
    }
    base.to_owned()
}

} // verus!
