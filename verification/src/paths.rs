//! Paths as strings, with `/` as the separator, and the app's directory
//! layout under the platform's data and config directories.
use vstd::prelude::*;
use crate::text::{chars_of, concat, string_from_chars, starts_with, str_starts_with};

verus! {

// ---------------------------------------------------------------------------
// Joining
// ---------------------------------------------------------------------------

/// `PathBuf::push`: an absolute `part` replaces `base`; otherwise `part` is
/// appended, with a `/` between unless `base` is empty or already ends in one.
pub open spec fn join_spec(base: Seq<char>, part: Seq<char>) -> Seq<char> {
    if part.len() > 0 && part[0] == '/' {
        part
    } else if base.len() == 0 {
        part
    } else if base.last() == '/' {
        base + part
    } else {
        base + seq!['/'] + part
    }
}

/// `base.join(part)` (see `join_spec`).
pub fn join(base: &str, part: &str) -> (r: String)
    ensures
        r@ == join_spec(base@, part@),
{
    let b = chars_of(base);
    let p = chars_of(part);
    if p.len() > 0 && p[0] == '/' {
        return string_from_chars(p.as_slice());
    }
    if b.len() == 0 {
        return string_from_chars(p.as_slice());
    }
    if b[b.len() - 1] == '/' {
        return concat(base, part);
    }
    let s = concat(base, "/");
    proof {
        reveal_strlit("/");
        assert("/"@ =~= seq!['/']);
    }
    concat(s.as_str(), part)
}

// ---------------------------------------------------------------------------
// Components
// ---------------------------------------------------------------------------

/// Index of the last `c` in `s[..n]`.
pub open spec fn last_index_of(s: Seq<char>, c: char, n: int) -> Option<int>
    decreases n,
{
    if n <= 0 || n > s.len() {
        None
    } else if s[n - 1] == c {
        Some(n - 1)
    } else {
        last_index_of(s, c, n - 1)
    }
}

proof fn lemma_last_index_of(s: Seq<char>, c: char, n: int)
    requires
        0 <= n <= s.len(),
    ensures
        last_index_of(s, c, n) matches Some(i) ==> 0 <= i < n && s[i] == c && forall|j: int|
            i < j < n ==> s[j] != c,
        last_index_of(s, c, n) is None ==> forall|j: int| 0 <= j < n ==> s[j] != c,
    decreases n,
{
    if n > 0 && s[n - 1] != c {
        lemma_last_index_of(s, c, n - 1);
    }
}

fn last_index_exec(v: &Vec<char>, c: char, n: usize) -> (r: Option<usize>)
    requires
        n <= v@.len(),
    ensures
        match r {
            Some(i) => last_index_of(v@, c, n as int) == Some(i as int),
            None => last_index_of(v@, c, n as int) is None,
        },
        r matches Some(i) ==> i < n,
{
    proof {
        lemma_last_index_of(v@, c, n as int);
    }
    let mut k: usize = n;
    while k > 0
        invariant
            k <= n <= v@.len(),
            last_index_of(v@, c, n as int) == last_index_of(v@, c, k as int),
        decreases k,
    {
        if v[k - 1] == c {
            return Some(k - 1);
        }
        k = k - 1;
    }
    None
}

/// Length of `s` without its trailing `/`s.
pub open spec fn trimmed_len(s: Seq<char>, n: int) -> int
    decreases n,
{
    if n <= 0 || n > s.len() {
        0
    } else if s[n - 1] == '/' {
        trimmed_len(s, n - 1)
    } else {
        n
    }
}

proof fn lemma_trimmed_len(s: Seq<char>, n: int)
    requires
        0 <= n <= s.len(),
    ensures
        0 <= trimmed_len(s, n) <= n,
        trimmed_len(s, n) > 0 ==> s[trimmed_len(s, n) - 1] != '/',
    decreases n,
{
    if n > 0 && s[n - 1] == '/' {
        lemma_trimmed_len(s, n - 1);
    }
}

fn trimmed_len_exec(v: &Vec<char>, n: usize) -> (r: usize)
    requires
        n <= v@.len(),
    ensures
        r as int == trimmed_len(v@, n as int),
        r <= n,
{
    let mut k: usize = n;
    while k > 0 && v[k - 1] == '/'
        invariant
            k <= n <= v@.len(),
            trimmed_len(v@, n as int) == trimmed_len(v@, k as int),
        decreases k,
    {
        k = k - 1;
    }
    k
}

/// The last component of `p` (trailing `/`s ignored).
pub open spec fn last_segment(p: Seq<char>) -> Seq<char> {
    let t = trimmed_len(p, p.len() as int);
    match last_index_of(p, '/', t) {
        Some(i) => p.subrange(i + 1, t),
        None => p.subrange(0, t),
    }
}

/// `Path::file_name`: the last component, unless it is empty, `.` or `..`.
pub open spec fn file_name_spec(p: Seq<char>) -> Option<Seq<char>> {
    let s = last_segment(p);
    if s.len() == 0 || s == seq!['.'] || s == seq!['.', '.'] {
        None
    } else {
        Some(s)
    }
}

/// Length of `v` without its trailing `/`s.
pub(crate) fn trimmed_len_pub(v: &Vec<char>) -> (r: usize)
    ensures
        r as int == trimmed_len(v@, v@.len() as int),
        r <= v@.len(),
{
    trimmed_len_exec(v, v.len())
}

/// The file name is the end of `p` before its trailing `/`s.
pub proof fn lemma_file_name_len(p: Seq<char>)
    ensures
        file_name_spec(p) matches Some(n) ==> n.len() <= trimmed_len(p, p.len() as int) && p.subrange(
            trimmed_len(p, p.len() as int) - n.len(),
            trimmed_len(p, p.len() as int),
        ) == n,
{
    let t = trimmed_len(p, p.len() as int);
    lemma_trimmed_len(p, p.len() as int);
    lemma_last_index_of(p, '/', t);
    match last_index_of(p, '/', t) {
        Some(i) => {
            assert(p.subrange(i + 1, t) =~= p.subrange(t - (t - i - 1), t));
        },
        None => {},
    }
}

/// The file name of `p` (see `file_name_spec`).
pub fn file_name_of(p: &str) -> (r: Option<String>)
    ensures
        match r {
            Some(s) => file_name_spec(p@) == Some(s@),
            None => file_name_spec(p@) is None,
        },
{
    let v = chars_of(p);
    let t = trimmed_len_exec(&v, v.len());
    let start = match last_index_exec(&v, '/', t) {
        Some(i) => i + 1,
        None => 0,
    };
    proof {
        lemma_last_index_of(v@, '/', t as int);
    }
    let seg = vstd::slice::slice_subrange(v.as_slice(), start, t);
    assert(seg@ =~= last_segment(p@));
    if seg.len() == 0 || (seg.len() == 1 && seg[0] == '.') || (seg.len() == 2 && seg[0] == '.'
        && seg[1] == '.') {
        proof {
            if seg@.len() == 1 {
                assert(seg@ =~= seq!['.']);
            } else if seg@.len() == 2 {
                assert(seg@ =~= seq!['.', '.']);
            }
        }
        return None;
    }
    assert(seg@ != seq!['.']) by {
        if seg@.len() == 1 {
            assert(seq!['.'][0] == '.');
        }
    }
    assert(seg@ != seq!['.', '.']) by {
        if seg@.len() == 2 {
            assert(seq!['.', '.'][0] == '.');
            assert(seq!['.', '.'][1] == '.');
        }
    }
    Some(string_from_chars(seg))
}

/// `Path::parent`: `p` without its last component (trailing `/`s
/// ignored); `""` for a one-component relative path, `/` for a child of the
/// root; none for the root or the empty path.
pub open spec fn parent_spec(p: Seq<char>) -> Option<Seq<char>> {
    let t = trimmed_len(p, p.len() as int);
    if t == 0 {
        None
    } else {
        match last_index_of(p, '/', t) {
            None => Some(Seq::empty()),
            Some(i) => {
                let q = trimmed_len(p, i);
                if q == 0 {
                    Some(seq!['/'])
                } else {
                    Some(p.subrange(0, q))
                }
            },
        }
    }
}

/// The parent of `p` (see `parent_spec`).
pub fn parent_of(p: &str) -> (r: Option<String>)
    ensures
        match r {
            Some(s) => parent_spec(p@) == Some(s@),
            None => parent_spec(p@) is None,
        },
{
    let v = chars_of(p);
    let t = trimmed_len_exec(&v, v.len());
    if t == 0 {
        return None;
    }
    proof {
        lemma_last_index_of(v@, '/', t as int);
    }
    match last_index_exec(&v, '/', t) {
        None => {
            let e: Vec<char> = Vec::new();
            Some(string_from_chars(e.as_slice()))
        },
        Some(i) => {
            let q = trimmed_len_exec(&v, i);
            if q == 0 {
                let mut e: Vec<char> = Vec::new();
                e.push('/');
                assert(e@ =~= seq!['/']);
                Some(string_from_chars(e.as_slice()))
            } else {
                let s = vstd::slice::slice_subrange(v.as_slice(), 0, q);
                Some(string_from_chars(s))
            }
        },
    }
}

// ---------------------------------------------------------------------------
// Stem and extension of a file name
// ---------------------------------------------------------------------------

/// Where a file name splits into stem and extension: at its last `.`,
/// unless that is its first character or the name is `..`.
pub open spec fn ext_dot(name: Seq<char>) -> Option<int> {
    if name == seq!['.', '.'] {
        None
    } else {
        match last_index_of(name, '.', name.len() as int) {
            Some(i) => if i == 0 {
                None
            } else {
                Some(i)
            },
            None => None,
        }
    }
}

/// `Path::file_stem` of a file name.
pub open spec fn stem_spec(name: Seq<char>) -> Seq<char> {
    match ext_dot(name) {
        Some(i) => name.subrange(0, i),
        None => name,
    }
}

/// `Path::extension` of a file name.
pub open spec fn ext_spec(name: Seq<char>) -> Option<Seq<char>> {
    match ext_dot(name) {
        Some(i) => Some(name.subrange(i + 1, name.len() as int)),
        None => None,
    }
}

fn ext_dot_exec(v: &Vec<char>) -> (r: Option<usize>)
    ensures
        match r {
            Some(i) => ext_dot(v@) == Some(i as int) && 0 < i < v@.len(),
            None => ext_dot(v@) is None,
        },
{
    proof {
        lemma_last_index_of(v@, '.', v@.len() as int);
    }
    if v.len() == 2 && v[0] == '.' && v[1] == '.' {
        assert(v@ =~= seq!['.', '.']);
        return None;
    }
    assert(v@ != seq!['.', '.']) by {
        if v@.len() == 2 {
            assert(seq!['.', '.'][0] == '.' && seq!['.', '.'][1] == '.');
        }
    }
    match last_index_exec(v, '.', v.len()) {
        Some(i) => if i == 0 {
            None
        } else {
            Some(i)
        },
        None => None,
    }
}

/// The stem of a file name (see `stem_spec`).
pub fn name_stem(name: &str) -> (r: String)
    ensures
        r@ == stem_spec(name@),
{
    let v = chars_of(name);
    match ext_dot_exec(&v) {
        Some(i) => string_from_chars(vstd::slice::slice_subrange(v.as_slice(), 0, i)),
        None => string_from_chars(v.as_slice()),
    }
}

/// The extension of a file name (see `ext_spec`).
pub fn name_ext(name: &str) -> (r: Option<String>)
    ensures
        match r {
            Some(s) => ext_spec(name@) == Some(s@),
            None => ext_spec(name@) is None,
        },
{
    let v = chars_of(name);
    match ext_dot_exec(&v) {
        Some(i) => {
            let n = v.len();
            assert(i < n);
            Some(string_from_chars(vstd::slice::slice_subrange(v.as_slice(), i + 1, n)))
        },
        None => None,
    }
}

/// `p` with extension `ext` when its file name has none
/// (`if p.extension().is_none() { p.set_extension(ext) }`): the name is cut
/// after its stem (dropping trailing `/`s) and `.ext` appended. A path
/// without a file name is unchanged.
pub open spec fn with_default_ext(p: Seq<char>, ext: Seq<char>) -> Seq<char> {
    match file_name_spec(p) {
        Some(n) => if ext_spec(n) is None {
            p.subrange(0, trimmed_len(p, p.len() as int)) + seq!['.'] + ext
        } else {
            p
        },
        None => p,
    }
}

/// Gives `p` the extension `ext` when it has none (see `with_default_ext`).
pub fn default_ext(p: &str, ext: &str) -> (r: String)
    ensures
        r@ == with_default_ext(p@, ext@),
{
    match file_name_of(p) {
        Some(n) => {
            match name_ext(n.as_str()) {
                Some(_) => p.to_owned(),
                None => {
                    let v = chars_of(p);
                    let t = trimmed_len_exec(&v, v.len());
                    let head0 = string_from_chars(vstd::slice::slice_subrange(v.as_slice(), 0, t));
                    let head = concat(head0.as_str(), ".");
                    proof {
                        reveal_strlit(".");
                        assert("."@ =~= seq!['.']);
                    }
                    proof {
                        assert(head@ =~= p@.subrange(0, trimmed_len(p@, p@.len() as int)) + seq!['.']);
                    }
                    concat(head.as_str(), ext)
                },
            }
        },
        None => p.to_owned(),
    }
}

// ---------------------------------------------------------------------------
// Home directory expansion
// ---------------------------------------------------------------------------

/// A leading `~/` stands for the home directory, when there is one.
pub open spec fn expand_spec(s: Seq<char>, home: Option<Seq<char>>) -> Seq<char> {
    if starts_with(s, seq!['~', '/']) && home is Some {
        home->0 + seq!['/'] + s.subrange(2, s.len() as int)
    } else {
        s
    }
}

/// Expands a leading `~/` (see `expand_spec`).
pub fn shellexpand(s: &str, home: Option<&str>) -> (r: String)
    ensures
        r@ == expand_spec(s@, match home {
            Some(h) => Some(h@),
            None => None,
        }),
{
    proof {
        reveal_strlit("~/");
        assert("~/"@ =~= seq!['~', '/']);
    }
    if str_starts_with(s, "~/") {
        match home {
            Some(h) => {
                let v = chars_of(s);
                let rest = string_from_chars(vstd::slice::slice_subrange(v.as_slice(), 2, v.len()));
                let a = concat(h, "/");
                proof {
                    reveal_strlit("/");
                    assert("/"@ =~= seq!['/']);
                }
                concat(a.as_str(), rest.as_str())
            },
            None => s.to_owned(),
        }
    } else {
        s.to_owned()
    }
}

// ---------------------------------------------------------------------------
// The app's directories
// ---------------------------------------------------------------------------

/// The app's data directory under the platform data directory.
pub open spec fn app_data_dir_spec(data_base: Seq<char>) -> Seq<char> {
    join_spec(data_base, "nomansmanager"@)
}

/// The app's data directory.
pub fn app_data_dir(data_base: &str) -> (r: String)
    ensures
        r@ == app_data_dir_spec(data_base@),
{
    join(data_base, "nomansmanager")
}

/// The app's config directory.
pub fn app_config_dir(config_base: &str) -> (r: String)
    ensures
        r@ == join_spec(config_base@, "nomansmanager"@),
{
    join(config_base, "nomansmanager")
}

/// The mod store.
pub fn store_dir(data_base: &str) -> (r: String)
    ensures
        r@ == join_spec(app_data_dir_spec(data_base@), "mods"@),
{
    let d = app_data_dir(data_base);
    join(d.as_str(), "mods")
}

/// Where profiles are kept.
pub fn profiles_dir(data_base: &str) -> (r: String)
    ensures
        r@ == join_spec(app_data_dir_spec(data_base@), "profiles"@),
{
    let d = app_data_dir(data_base);
    join(d.as_str(), "profiles")
}

/// The settings file.
pub fn config_file(config_base: &str) -> (r: String)
    ensures
        r@ == join_spec(join_spec(config_base@, "nomansmanager"@), "settings.json"@),
{
    let d = app_config_dir(config_base);
    join(d.as_str(), "settings.json")
}

/// The activity log's directory.
pub fn log_dir(data_base: &str) -> (r: String)
    ensures
        r@ == join_spec(app_data_dir_spec(data_base@), "logs"@),
{
    let d = app_data_dir(data_base);
    join(d.as_str(), "logs")
}

/// The activity log.
pub fn log_file(data_base: &str) -> (r: String)
    ensures
        r@ == join_spec(join_spec(app_data_dir_spec(data_base@), "logs"@), "app.log"@),
{
    let d = log_dir(data_base);
    join(d.as_str(), "app.log")
}

/// Root of everything the save editor writes.
pub open spec fn saves_root_spec(data_base: Seq<char>) -> Seq<char> {
    join_spec(app_data_dir_spec(data_base), "saves"@)
}

/// Root of everything the save editor writes.
pub fn saves_root(data_base: &str) -> (r: String)
    ensures
        r@ == saves_root_spec(data_base@),
{
    let d = app_data_dir(data_base);
    join(d.as_str(), "saves")
}

/// The cached key mapping.
pub fn mapping_cache_path(data_base: &str) -> (r: String)
    ensures
        r@ == join_spec(join_spec(saves_root_spec(data_base@), ".nms_mapping_cache"@), "mapping.json"@),
{
    let d = saves_root(data_base);
    let c = join(d.as_str(), ".nms_mapping_cache");
    join(c.as_str(), "mapping.json")
}

/// Backups of save files.
pub fn backups_save_dir(data_base: &str) -> (r: String)
    ensures
        r@ == join_spec(join_spec(saves_root_spec(data_base@), "backups"@), "save files"@),
{
    let d = saves_root(data_base);
    let b = join(d.as_str(), "backups");
    join(b.as_str(), "save files")
}

/// Backups of bases.
pub fn backups_bases_dir(data_base: &str) -> (r: String)
    ensures
        r@ == join_spec(join_spec(saves_root_spec(data_base@), "backups"@), "bases"@),
{
    let d = saves_root(data_base);
    let b = join(d.as_str(), "backups");
    join(b.as_str(), "bases")
}

/// Where recompressed saves go unless they overwrite the live file.
pub fn output_dir(data_base: &str) -> (r: String)
    ensures
        r@ == join_spec(saves_root_spec(data_base@), "output"@),
{
    let d = saves_root(data_base);
    join(d.as_str(), "output")
}

/// Exported bases.
pub fn output_bases_dir(data_base: &str) -> (r: String)
    ensures
        r@ == join_spec(join_spec(saves_root_spec(data_base@), "output"@), "bases"@),
{
    let d = output_dir(data_base);
    join(d.as_str(), "bases")
}

/// Exported `.nmsbase` files.
pub fn output_nmsbase_dir(data_base: &str) -> (r: String)
    ensures
        r@ == join_spec(join_spec(saves_root_spec(data_base@), "output"@), "nmsbase"@),
{
    let d = output_dir(data_base);
    join(d.as_str(), "nmsbase")
}

/// The game's mods folder under its install root.
pub fn get_mods_dir(game_root: &str) -> (r: String)
    ensures
        r@ == join_spec(game_root@, "GAMEDATA/MODS"@),
{
    join(game_root, "GAMEDATA/MODS")
}

// ---------------------------------------------------------------------------
// Managed paths
// ---------------------------------------------------------------------------

/// `p` lies inside `root` component by component (both normalized, as
/// `canonicalize` gives them): `root` is a prefix of `p` that ends at a
/// component boundary.
pub open spec fn within(p: Seq<char>, root: Seq<char>) -> bool {
    starts_with(p, root) && (root.len() == 0 || p.len() == root.len() || root.last() == '/'
        || p[root.len() as int] == '/')
}

/// Whether `p` lies inside `root` (see `within`).
pub fn is_within(p: &str, root: &str) -> (r: bool)
    ensures
        r == within(p@, root@),
{
    if !str_starts_with(p, root) {
        return false;
    }
    let pv = chars_of(p);
    let rv = chars_of(root);
    rv.len() == 0 || pv.len() == rv.len() || rv[rv.len() - 1] == '/' || pv[rv.len()] == '/'
}

/// Joining a relative, non-empty part to `base` gives a path inside `base`,
/// longer than it when `base` is not empty.
pub proof fn lemma_join_within(base: Seq<char>, part: Seq<char>)
    requires
        part.len() > 0,
        part[0] != '/',
    ensures
        within(join_spec(base, part), base),
        base.len() > 0 ==> join_spec(base, part).len() > base.len(),
        join_spec(base, part).len() > 0,
{
    let j = join_spec(base, part);
    if base.len() > 0 {
        if base.last() == '/' {
            assert(j.subrange(0, base.len() as int) =~= base);
        } else {
            assert(j.subrange(0, base.len() as int) =~= base);
            assert(j[base.len() as int] == '/');
        }
    } else {
        assert(j.subrange(0, 0) =~= base);
    }
}

/// Being inside is transitive.
pub proof fn lemma_within_trans(p: Seq<char>, m: Seq<char>, r: Seq<char>)
    requires
        within(p, m),
        within(m, r),
    ensures
        within(p, r),
{
    assert(p.subrange(0, m.len() as int) == m);
    assert(m.subrange(0, r.len() as int) == r);
    assert(p.subrange(0, r.len() as int) =~= r) by {
        assert forall|i: int| 0 <= i < r.len() implies p.subrange(0, r.len() as int)[i] == r[i] by {
            assert(p[i] == p.subrange(0, m.len() as int)[i]);
            assert(m[i] == m.subrange(0, r.len() as int)[i]);
        }
    }
    if r.len() > 0 && p.len() != r.len() && r.last() != '/' {
        if m.len() == r.len() {
            assert(m =~= r);
        } else {
            assert(p[r.len() as int] == p.subrange(0, m.len() as int)[r.len() as int]);
        }
    }
}

/// The save editor's folders: the saves root sits in the app's data folder;
/// the mapping cache, the backups and the output all lie inside it; both
/// backup folders lie inside `backups`, and the output folder does not.
pub proof fn law_save_layout(data_base: Seq<char>)
    ensures
        ({
            let app = app_data_dir_spec(data_base);
            let root = saves_root_spec(data_base);
            let backups = join_spec(root, "backups"@);
            let output = join_spec(root, "output"@);
            &&& within(root, app)
            &&& within(join_spec(join_spec(root, ".nms_mapping_cache"@), "mapping.json"@), root)
            &&& within(backups, root)
            &&& within(join_spec(backups, "save files"@), backups)
            &&& within(join_spec(backups, "bases"@), backups)
            &&& within(output, root)
            &&& within(join_spec(output, "bases"@), root)
            &&& within(join_spec(output, "nmsbase"@), root)
            &&& !within(output, backups)
        }),
{
    reveal_strlit("nomansmanager");
    reveal_strlit("saves");
    reveal_strlit("backups");
    reveal_strlit("output");
    reveal_strlit(".nms_mapping_cache");
    reveal_strlit("mapping.json");
    reveal_strlit("save files");
    reveal_strlit("bases");
    reveal_strlit("nmsbase");
    let app = app_data_dir_spec(data_base);
    let root = saves_root_spec(data_base);
    let backups = join_spec(root, "backups"@);
    let output = join_spec(root, "output"@);
    let cache = join_spec(root, ".nms_mapping_cache"@);
    lemma_join_within(data_base, "nomansmanager"@);
    lemma_join_within(app, "saves"@);
    lemma_join_within(root, "backups"@);
    lemma_join_within(root, "output"@);
    lemma_join_within(root, ".nms_mapping_cache"@);
    lemma_join_within(cache, "mapping.json"@);
    lemma_within_trans(join_spec(cache, "mapping.json"@), cache, root);
    lemma_join_within(backups, "save files"@);
    lemma_join_within(backups, "bases"@);
    lemma_join_within(output, "bases"@);
    lemma_within_trans(join_spec(output, "bases"@), output, root);
    lemma_join_within(output, "nmsbase"@);
    lemma_within_trans(join_spec(output, "nmsbase"@), output, root);
    assert(root.last() == 's');
    assert(output =~= root + seq!['/'] + "output"@);
    assert(backups =~= root + seq!['/'] + "backups"@);
    assert(output[root.len() as int + 1] == 'o');
    assert(backups[root.len() as int + 1] == 'b');
    if within(output, backups) {
        assert(output.subrange(0, backups.len() as int)[root.len() as int + 1] == backups[root.len() as int + 1]);
    }
}

/// The last component of `base` joined with a non-empty name that holds
/// no `/` is that name.
pub proof fn lemma_last_segment_join(base: Seq<char>, x: Seq<char>)
    requires
        x.len() > 0,
        forall|i: int| 0 <= i < x.len() ==> x[i] != '/',
    ensures
        last_segment(join_spec(base, x)) == x,
{
    let p = join_spec(base, x);
    let pre = if base.len() == 0 {
        Seq::<char>::empty()
    } else if base.last() == '/' {
        base
    } else {
        base + seq!['/']
    };
    assert(p =~= pre + x);
    assert(pre.len() > 0 ==> pre.last() == '/');
    let n = p.len() as int;
    assert(p[n - 1] == x[x.len() - 1]);
    assert(trimmed_len(p, n) == n);
    lemma_last_index_of(p, '/', n);
    match last_index_of(p, '/', n) {
        Some(i) => {
            if i >= pre.len() {
                assert(p[i] == x[i - pre.len()]);
            }
            if i < pre.len() - 1 {
                assert(p[pre.len() - 1] == '/');
            }
            assert(p.subrange(i + 1, n) =~= x);
        },
        None => {
            if pre.len() > 0 {
                assert(p[pre.len() - 1] == '/');
            }
            assert(p.subrange(0, n) =~= x);
        },
    }
}

/// The file name of `base` joined with a name that holds no `/` and does
/// not start with a dot is that name.
pub proof fn lemma_file_name_join(base: Seq<char>, x: Seq<char>)
    requires
        x.len() > 0,
        x[0] != '.',
        forall|i: int| 0 <= i < x.len() ==> x[i] != '/',
    ensures
        file_name_spec(join_spec(base, x)) == Some(x),
{
    lemma_last_segment_join(base, x);
    assert(x != seq!['.']);
    assert(x != seq!['.', '.']);
}

/// The stem of a non-empty file name is a non-empty beginning of it.
pub proof fn lemma_stem_prefix(name: Seq<char>)
    requires
        name.len() > 0,
    ensures
        0 < stem_spec(name).len() <= name.len(),
        forall|i: int| 0 <= i < stem_spec(name).len() ==> stem_spec(name)[i] == name[i],
{
    lemma_last_index_of(name, '.', name.len() as int);
}

/// A name ending in `.ext` after a non-empty stem has that extension and
/// that stem, when `ext` holds no dot.
pub proof fn lemma_ext_of(stem: Seq<char>, ext: Seq<char>)
    requires
        stem.len() > 0,
        !(stem == seq!['.'] && ext.len() == 0),
        forall|i: int| 0 <= i < ext.len() ==> ext[i] != '.',
    ensures
        ext_spec(stem + seq!['.'] + ext) == Some(ext),
        stem_spec(stem + seq!['.'] + ext) == stem,
{
    let name = stem + seq!['.'] + ext;
    let d = stem.len() as int;
    lemma_last_index_of(name, '.', name.len() as int);
    assert(name[d] == '.');
    assert(name[0] == stem[0]);
    assert(name != seq!['.', '.']) by {
        if name == seq!['.', '.'] {
            assert(seq!['.', '.'][0] == '.');
            assert(stem =~= seq!['.']);
        }
    }
    match last_index_of(name, '.', name.len() as int) {
        Some(i) => {
            if i > d {
                assert(name[i] == ext[i - d - 1]);
            }
            if i < d {
                assert(name[d] != '.');
            }
            assert(i == d);
        },
        None => {
            assert(name[d] != '.');
        },
    }
    assert(name.subrange(d + 1, name.len() as int) =~= ext);
    assert(name.subrange(0, d) =~= stem);
}

/// `p` lies inside one of `roots` (see `within`).
pub open spec fn managed(p: Seq<char>, roots: Seq<Seq<char>>) -> bool {
    exists|i: int| 0 <= i < roots.len() && within(p, #[trigger] roots[i])
}

/// Whether `path` lies inside one of the managed folders `roots` (all
/// normalized, as `canonicalize` gives them): the test every file operation
/// of the app makes before it touches a path.
pub fn is_managed_path(path: &str, roots: &Vec<String>) -> (r: bool)
    ensures
        r == managed(path@, Seq::new(roots@.len(), |i: int| roots@[i]@)),
{
    let ghost rs = Seq::new(roots@.len(), |i: int| roots@[i]@);
    let mut i: usize = 0;
    while i < roots.len()
        invariant
            i <= roots@.len(),
            rs == Seq::new(roots@.len(), |q: int| roots@[q]@),
            forall|j: int| 0 <= j < i ==> !within(path@, #[trigger] rs[j]),
        decreases roots@.len() - i,
    {
        if is_within(path, roots[i].as_str()) {
            assert(within(path@, rs[i as int]));
            return true;
        }
        i = i + 1;
    }
    false
}

} // verus!
