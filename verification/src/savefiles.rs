//! Save folders and files on disk: where saves are looked for, which files
//! are saves, how they are listed, and the names of backups.
use vstd::prelude::*;
use crate::text::{concat, contains, starts_with, ends_with, str_contains, str_starts_with, str_ends_with, str_eq, u64_to_string, decimal};
use crate::paths::{within, is_within, join, join_spec, parent_of, parent_spec, file_name_of, file_name_spec, name_stem, stem_spec, name_ext, ext_spec};
use crate::names::{size_display, size_display_spec, is_save_container, is_save_container_spec};
use crate::sort::{sort_by_num_desc, sort_by_num_asc, stable_sort, num_gt, num_lt, map_payload, lemma_sort_map, lemma_stable_sort_len};
use crate::store::{lower_text, to_lower};
use crate::deploy::views;
use crate::locate::{dedupe, dedupe_paths, opt_views};
use crate::clock::{timestamp, stamp_form};

verus! {

// ---------------------------------------------------------------------------
// Where saves are
// ---------------------------------------------------------------------------

/// The save folder inside a Proton prefix.
pub open spec fn proton_save_sub() -> Seq<char> {
    "drive_c/users/steamuser/AppData/Roaming/HelloGames/NMS"@
}

/// The saves folder in the Proton prefix of the game under a Steam root.
pub open spec fn proton_root(home: Seq<char>, steam: Seq<char>) -> Seq<char> {
    join_spec(join_spec(join_spec(join_spec(home, steam), "275850"@), "pfx"@), proton_save_sub())
}

fn proton_root_exec(home: &str, steam: &str) -> (r: String)
    ensures
        r@ == proton_root(home@, steam@),
{
    let a = join(home, steam);
    let b = join(a.as_str(), "275850");
    let c = join(b.as_str(), "pfx");
    join(c.as_str(), "drive_c/users/steamuser/AppData/Roaming/HelloGames/NMS")
}

/// The folders that may hold save containers: the platform's own (given),
/// then the Proton prefixes of the game under the usual Steam roots; each
/// place once.
pub fn candidate_roots(native: Vec<String>, home: &str) -> (r: Vec<String>)
    ensures
        views(r@) == dedupe(views(native@) + seq![
            proton_root(home@, ".local/share/Steam/steamapps/compatdata"@),
            proton_root(home@, ".steam/steam/steamapps/compatdata"@),
            proton_root(home@, ".var/app/com.valvesoftware.Steam/data/Steam/steamapps/compatdata"@),
            proton_root(home@, ".var/app/com.valvesoftware.Steam/.local/share/Steam/steamapps/compatdata"@),
            proton_root(home@, "snap/steam/common/.local/share/Steam/steamapps/compatdata"@),
        ]),
{
    let mut raw = native;
    let ghost nv = views(raw@);
    raw.push(proton_root_exec(home, ".local/share/Steam/steamapps/compatdata"));
    raw.push(proton_root_exec(home, ".steam/steam/steamapps/compatdata"));
    raw.push(proton_root_exec(home, ".var/app/com.valvesoftware.Steam/data/Steam/steamapps/compatdata"));
    raw.push(proton_root_exec(home, ".var/app/com.valvesoftware.Steam/.local/share/Steam/steamapps/compatdata"));
    raw.push(proton_root_exec(home, "snap/steam/common/.local/share/Steam/steamapps/compatdata"));
    assert(views(raw@) =~= nv + seq![
        proton_root(home@, ".local/share/Steam/steamapps/compatdata"@),
        proton_root(home@, ".steam/steam/steamapps/compatdata"@),
        proton_root(home@, ".var/app/com.valvesoftware.Steam/data/Steam/steamapps/compatdata"@),
        proton_root(home@, ".var/app/com.valvesoftware.Steam/.local/share/Steam/steamapps/compatdata"@),
        proton_root(home@, "snap/steam/common/.local/share/Steam/steamapps/compatdata"@),
    ]);
    dedupe_paths(raw)
}

/// A save file's name: `save…​.hg`.
pub open spec fn is_save_name(name: Seq<char>) -> bool {
    starts_with(name, "save"@) && ends_with(name, ".hg"@)
}

/// Whether a file name is a save file's.
pub fn is_save_file_name(name: &str) -> (r: bool)
    ensures
        r == is_save_name(name@),
{
    str_starts_with(name, "save") && str_ends_with(name, ".hg")
}

/// A child folder is a save container when its name looks like one or it
/// holds save files.
pub fn is_save_dir(name: &str, has_saves: bool) -> (r: bool)
    ensures
        r == (is_save_container_spec(name@) || has_saves),
{
    is_save_container(name) || has_saves
}

/// The folder a given path stands for: itself when a directory, its parent
/// when a file, nothing otherwise.
pub open spec fn given_dir_spec(p: Seq<char>, is_dir: bool, is_file: bool) -> Option<Seq<char>> {
    if is_dir {
        Some(p)
    } else if is_file {
        parent_spec(p)
    } else {
        None
    }
}

/// The folder a given path stands for (see `given_dir_spec`).
pub fn given_dir(p: &str, is_dir: bool, is_file: bool) -> (r: Option<String>)
    ensures
        opt_views(r) == given_dir_spec(p@, is_dir, is_file),
{
    if is_dir {
        Some(p.to_owned())
    } else if is_file {
        parent_of(p)
    } else {
        None
    }
}

/// The first folder with save files, else the first folder.
pub open spec fn pick_save_dir_spec(dirs: Seq<Seq<char>>, has_saves: Seq<bool>) -> Option<Seq<char>> {
    if dirs.len() == 0 {
        None
    } else {
        match first_true(has_saves, dirs.len() as int, 0) {
            Some(i) => Some(dirs[i]),
            None => Some(dirs[0]),
        }
    }
}

/// Index of the first `true` among the first `n` flags, from `i`.
pub open spec fn first_true(flags: Seq<bool>, n: int, i: int) -> Option<int>
    decreases n - i,
{
    if i < 0 || i >= n || i >= flags.len() {
        None
    } else if flags[i] {
        Some(i)
    } else {
        first_true(flags, n, i + 1)
    }
}

/// Picks the save folder among the found ones (see `pick_save_dir_spec`).
pub fn pick_save_dir(dirs: &Vec<String>, has_saves: &Vec<bool>) -> (r: Option<String>)
    requires
        has_saves@.len() == dirs@.len(),
    ensures
        opt_views(r) == pick_save_dir_spec(views(dirs@), has_saves@),
{
    if dirs.len() == 0 {
        return None;
    }
    let mut i: usize = 0;
    while i < dirs.len()
        invariant
            i <= dirs@.len(),
            has_saves@.len() == dirs@.len(),
            first_true(has_saves@, dirs@.len() as int, 0) == first_true(has_saves@, dirs@.len() as int, i as int),
        decreases dirs@.len() - i,
    {
        if has_saves[i] {
            return Some(dirs[i].clone());
        }
        i = i + 1;
    }
    Some(dirs[0].clone())
}

// ---------------------------------------------------------------------------
// Listing save files
// ---------------------------------------------------------------------------

/// A file of a save folder as read from disk.
#[derive(Debug, PartialEq)]
pub struct SaveEntry {
    pub name: String,
    pub is_file: bool,
    pub size_bytes: u64,
    /// Modification time in milliseconds since the epoch (0 when unknown).
    pub mtime_ms: i64,
    /// Modification time as shown (`?` when unknown).
    pub modified: String,
}

/// A save file as listed.
#[derive(Debug, PartialEq)]
pub struct SaveFileInfo {
    pub name: String,
    pub size_bytes: u64,
    pub size_display: String,
    pub modified: String,
    pub mtime_ms: i64,
}

/// Model of a listed save file.
pub struct SaveInfoModel {
    pub name: Seq<char>,
    pub size_bytes: u64,
    pub size_display: Seq<char>,
    pub modified: Seq<char>,
    pub mtime_ms: i64,
}

impl View for SaveFileInfo {
    type V = SaveInfoModel;

    open spec fn view(&self) -> SaveInfoModel {
        SaveInfoModel {
            name: self.name@,
            size_bytes: self.size_bytes,
            size_display: self.size_display@,
            modified: self.modified@,
            mtime_ms: self.mtime_ms,
        }
    }
}

/// The listing of an entry, if it is a save file.
pub open spec fn save_info_of(e: SaveEntry) -> Option<SaveInfoModel> {
    if is_save_name(e.name@) && e.is_file {
        Some(SaveInfoModel {
            name: e.name@,
            size_bytes: e.size_bytes,
            size_display: size_display_spec(e.size_bytes),
            modified: e.modified@,
            mtime_ms: e.mtime_ms,
        })
    } else {
        None
    }
}

/// The save files among `s`, keyed by modification time, in order.
pub open spec fn save_infos(s: Seq<SaveEntry>) -> Seq<(i64, SaveInfoModel)>
    decreases s.len(),
{
    if s.len() == 0 {
        Seq::empty()
    } else {
        match save_info_of(s.last()) {
            Some(m) => save_infos(s.drop_last()).push((m.mtime_ms, m)),
            None => save_infos(s.drop_last()),
        }
    }
}

/// The save files of a folder, newest first (a stable sort, so files with
/// the same time keep the order they were read in).
pub open spec fn save_listing_spec(s: Seq<SaveEntry>) -> Seq<SaveInfoModel> {
    let sorted = stable_sort(save_infos(s), num_gt());
    Seq::new(sorted.len(), |i: int| sorted[i].1)
}

/// Lists the save files of a folder (see `save_listing_spec`).
pub fn save_listing(entries: Vec<SaveEntry>) -> (r: Vec<SaveFileInfo>)
    ensures
        Seq::new(r@.len(), |i: int| r@[i]@) == save_listing_spec(entries@),
{
    let ghost orig = entries@;
    let n: usize = entries.len();
    let mut rest = entries;
    let mut keyed: Vec<(i64, SaveFileInfo)> = Vec::new();
    let mut i: usize = 0;
    assert(orig.take(0) =~= Seq::<SaveEntry>::empty());
    while rest.len() > 0
        invariant
            orig.len() == n,
            i + rest@.len() == n,
            forall|j: int| 0 <= j < rest@.len() ==> #[trigger] rest@[j] == orig[i + j],
            Seq::new(keyed@.len(), |q: int| (keyed@[q].0, keyed@[q].1@)) == save_infos(orig.take(i as int)),
        decreases rest@.len(),
    {
        let ghost old_rest = rest@;
        assert(old_rest[0] == orig[i + 0]);
        let e = rest.remove(0);
        proof {
            assert(orig.take(i + 1).drop_last() =~= orig.take(i as int));
            assert(orig.take(i + 1).last() == e);
        }
        let ghost before = keyed@;
        if is_save_file_name(e.name.as_str()) && e.is_file {
            let info = SaveFileInfo {
                name: e.name,
                size_bytes: e.size_bytes,
                size_display: size_display(e.size_bytes),
                modified: e.modified,
                mtime_ms: e.mtime_ms,
            };
            keyed.push((e.mtime_ms, info));
            assert(Seq::new(keyed@.len(), |q: int| (keyed@[q].0, keyed@[q].1@)) =~= Seq::new(before.len(), |q: int| (before[q].0, before[q].1@)).push((e.mtime_ms, keyed@.last().1@)));
        }
        i = i + 1;
        proof {
            assert forall|m: int| 0 <= m < rest@.len() implies #[trigger] rest@[m] == orig[i + m] by {
                assert(rest@[m] == old_rest[m + 1]);
            }
        }
    }
    assert(orig.take(n as int) =~= orig);
    let ghost km = Seq::new(keyed@.len(), |q: int| (keyed@[q].0, keyed@[q].1@));
    let ghost g = |x: SaveFileInfo| x@;
    assert(km =~= map_payload(keyed@, g));
    let sorted = sort_by_num_desc(keyed);
    let ghost ss = sorted@;
    proof {
        lemma_sort_map(keyed@, g, num_gt());
        lemma_stable_sort_len(keyed@, num_gt());
    }
    let mut out: Vec<SaveFileInfo> = Vec::new();
    let mut rest = sorted;
    let m: usize = rest.len();
    let mut j: usize = 0;
    while rest.len() > 0
        invariant
            ss.len() == m,
            j + rest@.len() == m,
            forall|q: int| 0 <= q < rest@.len() ==> #[trigger] rest@[q] == ss[j + q],
            out@.len() == j,
            forall|q: int| 0 <= q < j ==> #[trigger] out@[q]@ == ss[q].1@,
        decreases rest@.len(),
    {
        let ghost old_rest = rest@;
        assert(old_rest[0] == ss[j + 0]);
        let (_, info) = rest.remove(0);
        out.push(info);
        j = j + 1;
        proof {
            assert forall|q: int| 0 <= q < rest@.len() implies #[trigger] rest@[q] == ss[j + q] by {
                assert(rest@[q] == old_rest[q + 1]);
            }
        }
    }
    assert(Seq::new(out@.len(), |q: int| out@[q]@) =~= save_listing_spec(orig));
    out
}

// ---------------------------------------------------------------------------
// Backups
// ---------------------------------------------------------------------------

/// A file that a manual backup copies: by its lowercased name, a save file
/// that is not itself a backup.
pub open spec fn is_backup_source_spec(name: Seq<char>) -> bool {
    let n = lower_text(name);
    starts_with(n, "save"@) && ends_with(n, ".hg"@) && !contains(n, "backup"@) && !contains(
        n,
        "before_recompress"@,
    ) && !contains(n, "pre_restore"@)
}

/// Whether a file is copied by a manual backup (see `is_backup_source_spec`).
pub fn is_backup_source(name: &str) -> (r: bool)
    ensures
        r == is_backup_source_spec(name@),
{
    let n = to_lower(name);
    let s = n.as_str();
    str_starts_with(s, "save") && str_ends_with(s, ".hg") && !str_contains(s, "backup")
        && !str_contains(s, "before_recompress") && !str_contains(s, "pre_restore")
}

/// Files shorter than this are not real saves and are not backed up.
pub open spec fn min_save_len() -> u64 {
    18
}

/// Whether a backup source of `size` bytes (unknown when `None`) is copied.
pub fn big_enough(size: Option<u64>) -> (r: bool)
    ensures
        r == match size {
            Some(n) => n >= min_save_len(),
            None => false,
        },
{
    match size {
        Some(n) => n >= 18,
        None => false,
    }
}

/// The name of a manual backup of `stem` taken at `stamp`; `n` tells the
/// copies apart when the plain name is taken.
pub open spec fn manual_backup_spec(stem: Seq<char>, stamp: Seq<char>, n: Option<nat>) -> Seq<char> {
    match n {
        None => stem + "_manual_backup_"@ + stamp + ".hg"@,
        Some(k) => stem + "_manual_backup_"@ + stamp + "_"@ + decimal(k) + ".hg"@,
    }
}

/// The name of a manual backup (see `manual_backup_spec`).
pub fn manual_backup_name(stem: &str, stamp: &str, n: Option<u64>) -> (r: String)
    ensures
        r@ == manual_backup_spec(stem@, stamp@, match n {
            Some(k) => Some(k as nat),
            None => None,
        }),
{
    let a = concat(stem, "_manual_backup_");
    let b = concat(a.as_str(), stamp);
    match n {
        None => concat(b.as_str(), ".hg"),
        Some(k) => {
            let c = concat(b.as_str(), "_");
            let d = u64_to_string(k);
            let e = concat(c.as_str(), d.as_str());
            concat(e.as_str(), ".hg")
        },
    }
}

/// The stem a backup is named after: the file's stem, or `save`.
pub open spec fn stem_or_save(file: Seq<char>) -> Seq<char> {
    match file_name_spec(file) {
        Some(n) => stem_spec(n),
        None => "save"@,
    }
}

fn stem_or_save_exec(file: &str) -> (r: String)
    ensures
        r@ == stem_or_save(file@),
{
    match file_name_of(file) {
        Some(n) => name_stem(n.as_str()),
        None => "save".to_owned(),
    }
}

/// The name of the copy of a live save taken before it is restored over.
pub open spec fn pre_restore_spec(save_file: Seq<char>, stamp: Seq<char>) -> Seq<char> {
    stem_or_save(save_file) + "_pre_restore_"@ + stamp + ".hg"@
}

/// The name of the copy of a live save taken before a recompressed save
/// overwrites it.
pub open spec fn before_recompress_spec(save_file: Seq<char>, stamp: Seq<char>) -> Seq<char> {
    stem_or_save(save_file) + "_before_recompress_"@ + stamp + ".hg"@
}

/// The name of the copy taken before restoring over `save_file` at `stamp`.
pub fn pre_restore_name(save_file: &str, stamp: &str) -> (r: String)
    ensures
        r@ == pre_restore_spec(save_file@, stamp@),
{
    let s = stem_or_save_exec(save_file);
    let a = concat(s.as_str(), "_pre_restore_");
    let b = concat(a.as_str(), stamp);
    concat(b.as_str(), ".hg")
}

/// The name of the copy taken before overwriting `save_file` at `stamp`.
pub fn before_recompress_name(save_file: &str, stamp: &str) -> (r: String)
    ensures
        r@ == before_recompress_spec(save_file@, stamp@),
{
    let s = stem_or_save_exec(save_file);
    let a = concat(s.as_str(), "_before_recompress_");
    let b = concat(a.as_str(), stamp);
    concat(b.as_str(), ".hg")
}

/// The current time stamp for backup names, read from the clock: the local
/// date and time in the form `YYYYMMDD_HHMMSS` (see `stamp_form`); which
/// date and time is not stated: it is the time.
pub fn backup_stamp() -> (r: String)
    ensures
        stamp_form(r@),
{
    timestamp()
}

/// The name of the copy taken before restoring over `save_file` now: the
/// name at some time stamp of the form `YYYYMMDD_HHMMSS`.
pub fn pre_restore_name_now(save_file: &str) -> (r: String)
    ensures
        exists|stamp: Seq<char>| stamp_form(stamp) && r@ == pre_restore_spec(save_file@, stamp),
{
    let t = timestamp();
    pre_restore_name(save_file, t.as_str())
}

/// The name of the copy taken before overwriting `save_file` now: the name
/// at some time stamp of the form `YYYYMMDD_HHMMSS`.
pub fn before_recompress_name_now(save_file: &str) -> (r: String)
    ensures
        exists|stamp: Seq<char>| stamp_form(stamp) && r@ == before_recompress_spec(save_file@, stamp),
{
    let t = timestamp();
    before_recompress_name(save_file, t.as_str())
}

/// A backup file as read from disk.
#[derive(Debug, PartialEq)]
pub struct BackupEntry {
    pub name: String,
    pub path: String,
    /// Its metadata could be read.
    pub meta_ok: bool,
    /// Modification time in whole seconds since the epoch (0 when unknown).
    pub secs: u64,
    pub size_bytes: u64,
    /// Modification time as shown (`?` when unknown).
    pub modified: String,
}

/// A backup as listed.
#[derive(Debug, PartialEq)]
pub struct BackupInfo {
    pub name: String,
    pub size_display: String,
    pub modified: String,
    pub path: String,
}

/// Model of a listed backup.
pub struct BackupModel {
    pub name: Seq<char>,
    pub size_display: Seq<char>,
    pub modified: Seq<char>,
    pub path: Seq<char>,
}

impl View for BackupInfo {
    type V = BackupModel;

    open spec fn view(&self) -> BackupModel {
        BackupModel {
            name: self.name@,
            size_display: self.size_display@,
            modified: self.modified@,
            path: self.path@,
        }
    }
}

/// A backup is listed when it is an `.hg` file whose stem contains the
/// wanted stem (any, when none is wanted).
pub open spec fn backup_wanted(name: Seq<char>, stem: Option<Seq<char>>) -> bool {
    ext_spec(name) == Some("hg"@) && match stem {
        Some(s) => contains(stem_spec(name), s),
        None => true,
    }
}

/// The wanted backups, keyed by time, in order.
pub open spec fn wanted_backups(s: Seq<BackupEntry>, stem: Option<Seq<char>>) -> Seq<(u64, BackupEntry)>
    decreases s.len(),
{
    if s.len() == 0 {
        Seq::empty()
    } else if backup_wanted(s.last().name@, stem) {
        wanted_backups(s.drop_last(), stem).push((s.last().secs, s.last()))
    } else {
        wanted_backups(s.drop_last(), stem)
    }
}

/// The listing of one backup, when its metadata could be read.
pub open spec fn backup_model_of(e: BackupEntry) -> Option<BackupModel> {
    if e.meta_ok {
        Some(BackupModel {
            name: e.name@,
            size_display: size_display_spec(e.size_bytes),
            modified: e.modified@,
            path: e.path@,
        })
    } else {
        None
    }
}

/// The listings of the entries of a keyed list, in order.
pub open spec fn backup_models(s: Seq<(u64, BackupEntry)>) -> Seq<BackupModel>
    decreases s.len(),
{
    if s.len() == 0 {
        Seq::empty()
    } else {
        match backup_model_of(s.last().1) {
            Some(m) => backup_models(s.drop_last()).push(m),
            None => backup_models(s.drop_last()),
        }
    }
}

/// The backups listed: the wanted ones sorted by time (stably, oldest
/// first), that order reversed, and those whose metadata could be read.
pub open spec fn backup_listing_spec(s: Seq<BackupEntry>, stem: Option<Seq<char>>) -> Seq<BackupModel> {
    backup_models(stable_sort(wanted_backups(s, stem), num_lt()).reverse())
}

fn backup_wanted_exec(name: &str, stem: &Option<String>) -> (r: bool)
    ensures
        r == backup_wanted(name@, opt_views(*stem)),
{
    let is_hg = match name_ext(name) {
        Some(e) => str_eq(e.as_str(), "hg"),
        None => false,
    };
    if !is_hg {
        return false;
    }
    match stem {
        Some(s) => {
            let st = name_stem(name);
            str_contains(st.as_str(), s.as_str())
        },
        None => true,
    }
}

/// Lists the backups of the save backups folder (see
/// `backup_listing_spec`).
pub fn backup_listing(entries: Vec<BackupEntry>, stem: Option<String>) -> (r: Vec<BackupInfo>)
    ensures
        Seq::new(r@.len(), |i: int| r@[i]@) == backup_listing_spec(entries@, opt_views(stem)),
{
    let ghost orig = entries@;
    let ghost sv = opt_views(stem);
    let n: usize = entries.len();
    let mut rest = entries;
    let mut keyed: Vec<(u64, BackupEntry)> = Vec::new();
    let mut i: usize = 0;
    assert(orig.take(0) =~= Seq::<BackupEntry>::empty());
    while rest.len() > 0
        invariant
            orig.len() == n,
            sv == opt_views(stem),
            i + rest@.len() == n,
            forall|j: int| 0 <= j < rest@.len() ==> #[trigger] rest@[j] == orig[i + j],
            keyed@ == wanted_backups(orig.take(i as int), sv),
        decreases rest@.len(),
    {
        let ghost old_rest = rest@;
        assert(old_rest[0] == orig[i + 0]);
        let e = rest.remove(0);
        proof {
            assert(orig.take(i + 1).drop_last() =~= orig.take(i as int));
            assert(orig.take(i + 1).last() == e);
        }
        if backup_wanted_exec(e.name.as_str(), &stem) {
            keyed.push((e.secs, e));
        }
        i = i + 1;
        proof {
            assert forall|m: int| 0 <= m < rest@.len() implies #[trigger] rest@[m] == orig[i + m] by {
                assert(rest@[m] == old_rest[m + 1]);
            }
        }
    }
    assert(orig.take(n as int) =~= orig);
    let sorted = sort_by_num_asc(keyed);
    let ghost ss = sorted@;
    let mut out: Vec<BackupInfo> = Vec::new();
    let mut src = sorted;
    let ghost m = ss.len();
    assert(ss.reverse().take(0) =~= Seq::<(u64, BackupEntry)>::empty());
    while src.len() > 0
        invariant
            ss.len() == m,
            src@.len() <= m,
            src@ == ss.take(src@.len() as int),
            Seq::new(out@.len(), |q: int| out@[q]@) == backup_models(ss.reverse().take(m - src@.len())),
        decreases src@.len(),
    {
        let ghost before = out@;
        let ghost len0 = src@.len();
        let (_, e) = src.pop().unwrap();
        proof {
            let taken = m - len0;
            assert(ss.reverse().take(taken + 1).drop_last() =~= ss.reverse().take(taken));
            assert(ss.reverse().take(taken + 1).last() == ss[len0 - 1]);
            assert(src@ =~= ss.take(src@.len() as int));
        }
        if e.meta_ok {
            let info = BackupInfo {
                name: e.name,
                size_display: size_display(e.size_bytes),
                modified: e.modified,
                path: e.path,
            };
            out.push(info);
            assert(Seq::new(out@.len(), |q: int| out@[q]@) =~= Seq::new(before.len(), |q: int| before[q]@).push(out@.last()@));
        } else {
            assert(Seq::new(out@.len(), |q: int| out@[q]@) =~= Seq::new(before.len(), |q: int| before[q]@));
        }
    }
    assert(ss.reverse().take(m as int) =~= ss.reverse());
    out
}

// ---------------------------------------------------------------------------
// Managed backups
// ---------------------------------------------------------------------------

/// A file in one of the backup folders as read from disk.
#[derive(Debug, PartialEq)]
pub struct ManagedEntry {
    pub name: String,
    pub path: String,
    pub is_file: bool,
    /// Its metadata could be read.
    pub meta_ok: bool,
    pub size_bytes: u64,
    /// Modification time in milliseconds since the epoch (0 when unknown).
    pub modified_ms: i64,
    /// Modification time as shown (`?` when unknown).
    pub modified: String,
}

/// A managed backup as listed.
#[derive(Debug, PartialEq)]
pub struct ManagedBackup {
    pub name: String,
    /// `save` (`.hg`) or `base` (`.json`, `.nmsbase`).
    pub kind: String,
    pub size_display: String,
    pub size_bytes: u64,
    pub modified_ms: i64,
    pub modified: String,
    pub path: String,
}

/// Model of a managed backup.
pub struct ManagedModel {
    pub name: Seq<char>,
    pub kind: Seq<char>,
    pub size_display: Seq<char>,
    pub size_bytes: u64,
    pub modified_ms: i64,
    pub modified: Seq<char>,
    pub path: Seq<char>,
}

impl View for ManagedBackup {
    type V = ManagedModel;

    open spec fn view(&self) -> ManagedModel {
        ManagedModel {
            name: self.name@,
            kind: self.kind@,
            size_display: self.size_display@,
            size_bytes: self.size_bytes,
            modified_ms: self.modified_ms,
            modified: self.modified@,
            path: self.path@,
        }
    }
}

/// The extensions of a kind of backup: `hg` for saves, `json` and
/// `nmsbase` for bases.
pub open spec fn kind_ext_ok(save_kind: bool, ext: Seq<char>) -> bool {
    if save_kind {
        ext == "hg"@
    } else {
        ext == "json"@ || ext == "nmsbase"@
    }
}

/// The listing of a file of a backup folder, when it is a backup of that
/// folder's kind (by its lowercased extension) and its metadata could be
/// read.
pub open spec fn managed_of(e: ManagedEntry, save_kind: bool) -> Option<ManagedModel> {
    let ext_ok = match ext_spec(e.name@) {
        Some(x) => kind_ext_ok(save_kind, lower_text(x)),
        None => false,
    };
    if e.is_file && ext_ok && e.meta_ok {
        Some(ManagedModel {
            name: e.name@,
            kind: if save_kind { "save"@ } else { "base"@ },
            size_display: size_display_spec(e.size_bytes),
            size_bytes: e.size_bytes,
            modified_ms: e.modified_ms,
            modified: e.modified@,
            path: e.path@,
        })
    } else {
        None
    }
}

/// The listings of a folder's entries, keyed by time, in order.
pub open spec fn managed_keyed(s: Seq<ManagedEntry>, save_kind: bool) -> Seq<(i64, ManagedModel)>
    decreases s.len(),
{
    if s.len() == 0 {
        Seq::empty()
    } else {
        match managed_of(s.last(), save_kind) {
            Some(m) => managed_keyed(s.drop_last(), save_kind).push((m.modified_ms, m)),
            None => managed_keyed(s.drop_last(), save_kind),
        }
    }
}

/// Every managed backup, saves' folder first, then sorted newest first
/// (stably).
pub open spec fn managed_listing_spec(saves: Seq<ManagedEntry>, bases: Seq<ManagedEntry>) -> Seq<ManagedModel> {
    let sorted = stable_sort(managed_keyed(saves, true) + managed_keyed(bases, false), num_gt());
    Seq::new(sorted.len(), |i: int| sorted[i].1)
}

fn managed_exec(e: ManagedEntry, save_kind: bool) -> (r: Option<ManagedBackup>)
    ensures
        match r {
            Some(m) => managed_of(e, save_kind) == Some(m@),
            None => managed_of(e, save_kind) is None,
        },
{
    let ext_ok = match name_ext(e.name.as_str()) {
        Some(x) => {
            let l = to_lower(x.as_str());
            if save_kind {
                str_eq(l.as_str(), "hg")
            } else {
                str_eq(l.as_str(), "json") || str_eq(l.as_str(), "nmsbase")
            }
        },
        None => false,
    };
    if e.is_file && ext_ok && e.meta_ok {
        let ghost em = e;
        let r = ManagedBackup {
            name: e.name,
            kind: if save_kind { "save".to_owned() } else { "base".to_owned() },
            size_display: size_display(e.size_bytes),
            size_bytes: e.size_bytes,
            modified_ms: e.modified_ms,
            modified: e.modified,
            path: e.path,
        };
        assert(managed_of(em, save_kind) == Some(r@));
        Some(r)
    } else {
        None
    }
}

fn managed_collect(entries: Vec<ManagedEntry>, save_kind: bool, keyed: &mut Vec<(i64, ManagedBackup)>)
    ensures
        Seq::new(final(keyed)@.len(), |q: int| (final(keyed)@[q].0, final(keyed)@[q].1@)) == Seq::new(
            old(keyed)@.len(),
            |q: int| (old(keyed)@[q].0, old(keyed)@[q].1@),
        ) + managed_keyed(entries@, save_kind),
{
    let ghost orig = entries@;
    let ghost start = Seq::new(keyed@.len(), |q: int| (keyed@[q].0, keyed@[q].1@));
    let n: usize = entries.len();
    let mut rest = entries;
    let mut i: usize = 0;
    assert(orig.take(0) =~= Seq::<ManagedEntry>::empty());
    assert(start + managed_keyed(orig.take(0), save_kind) =~= start);
    while rest.len() > 0
        invariant
            orig.len() == n,
            i + rest@.len() == n,
            forall|j: int| 0 <= j < rest@.len() ==> #[trigger] rest@[j] == orig[i + j],
            Seq::new(keyed@.len(), |q: int| (keyed@[q].0, keyed@[q].1@)) == start + managed_keyed(orig.take(i as int), save_kind),
        decreases rest@.len(),
    {
        let ghost old_rest = rest@;
        assert(old_rest[0] == orig[i + 0]);
        let e = rest.remove(0);
        proof {
            assert(orig.take(i + 1).drop_last() =~= orig.take(i as int));
            assert(orig.take(i + 1).last() == e);
        }
        let ghost before = keyed@;
        match managed_exec(e, save_kind) {
            Some(m) => {
                let ms = m.modified_ms;
                keyed.push((ms, m));
                assert(Seq::new(keyed@.len(), |q: int| (keyed@[q].0, keyed@[q].1@)) =~= Seq::new(before.len(), |q: int| (before[q].0, before[q].1@)).push((ms, keyed@.last().1@)));
            },
            None => {},
        }
        i = i + 1;
        proof {
            assert forall|m: int| 0 <= m < rest@.len() implies #[trigger] rest@[m] == orig[i + m] by {
                assert(rest@[m] == old_rest[m + 1]);
            }
        }
    }
    assert(orig.take(n as int) =~= orig);
}

/// Lists every managed backup (see `managed_listing_spec`).
pub fn managed_listing(saves: Vec<ManagedEntry>, bases: Vec<ManagedEntry>) -> (r: Vec<ManagedBackup>)
    ensures
        Seq::new(r@.len(), |i: int| r@[i]@) == managed_listing_spec(saves@, bases@),
{
    let ghost sv = saves@;
    let ghost bv = bases@;
    let mut keyed: Vec<(i64, ManagedBackup)> = Vec::new();
    assert(Seq::new(keyed@.len(), |q: int| (keyed@[q].0, keyed@[q].1@)) =~= Seq::<(i64, ManagedModel)>::empty());
    managed_collect(saves, true, &mut keyed);
    managed_collect(bases, false, &mut keyed);
    let ghost km = Seq::new(keyed@.len(), |q: int| (keyed@[q].0, keyed@[q].1@));
    assert(km =~= managed_keyed(sv, true) + managed_keyed(bv, false));
    let ghost g = |x: ManagedBackup| x@;
    assert(km =~= map_payload(keyed@, g));
    let sorted = sort_by_num_desc(keyed);
    let ghost ss = sorted@;
    proof {
        lemma_sort_map(keyed@, g, num_gt());
        lemma_stable_sort_len(keyed@, num_gt());
    }
    let mut out: Vec<ManagedBackup> = Vec::new();
    let mut rest = sorted;
    let m: usize = rest.len();
    let mut j: usize = 0;
    while rest.len() > 0
        invariant
            ss.len() == m,
            j + rest@.len() == m,
            forall|q: int| 0 <= q < rest@.len() ==> #[trigger] rest@[q] == ss[j + q],
            out@.len() == j,
            forall|q: int| 0 <= q < j ==> #[trigger] out@[q]@ == ss[q].1@,
        decreases rest@.len(),
    {
        let ghost old_rest = rest@;
        assert(old_rest[0] == ss[j + 0]);
        let (_, b) = rest.remove(0);
        out.push(b);
        j = j + 1;
        proof {
            assert forall|q: int| 0 <= q < rest@.len() implies #[trigger] rest@[q] == ss[j + q] by {
                assert(rest@[q] == old_rest[q + 1]);
            }
        }
    }
    assert(Seq::new(out@.len(), |q: int| out@[q]@) =~= managed_listing_spec(sv, bv));
    out
}

// ---------------------------------------------------------------------------
// Deleting a backup
// ---------------------------------------------------------------------------

/// Deleting a backup: the target must resolve (`None` when it does not),
/// lie inside the backups root, and be a file; the answer is its file name.
pub open spec fn delete_guard_spec(root: Seq<char>, target: Option<Seq<char>>, is_file: bool) -> Result<Seq<char>, Seq<char>> {
    match target {
        None => Err("backup not found"@),
        Some(t) => if !within(t, root) {
            Err("refusing to delete outside the backups folder"@)
        } else if !is_file {
            Err("not a file"@)
        } else {
            Ok(match file_name_spec(t) {
                Some(n) => n,
                None => Seq::empty(),
            })
        },
    }
}

/// Decides whether a backup may be deleted (see `delete_guard_spec`). A
/// target it allows always lies inside the root.
pub fn delete_guard(root: &str, target: Option<&str>, is_file: bool) -> (r: Result<String, String>)
    ensures
        match r {
            Ok(n) => delete_guard_spec(root@, match target {
                Some(t) => Some(t@),
                None => None,
            }, is_file) == Ok::<Seq<char>, Seq<char>>(n@),
            Err(e) => delete_guard_spec(root@, match target {
                Some(t) => Some(t@),
                None => None,
            }, is_file) == Err::<Seq<char>, Seq<char>>(e@),
        },
        r is Ok ==> (target matches Some(t) && within(t@, root@)),
{
    proof {
        reveal_strlit("");
    }
    match target {
        None => Err("backup not found".to_owned()),
        Some(t) => {
            if !is_within(t, root) {
                return Err("refusing to delete outside the backups folder".to_owned());
            }
            if !is_file {
                return Err("not a file".to_owned());
            }
            match file_name_of(t) {
                Some(n) => Ok(n),
                None => {
                    assert(""@ =~= Seq::<char>::empty());
                    Ok("".to_owned())
                },
            }
        },
    }
}

} // verus!
