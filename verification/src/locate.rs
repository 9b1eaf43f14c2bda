//! Finding the game: the places an install may be, and how the checks made
//! on disk decide among them.
//!
//! The checks themselves (does a path exist, is it a directory) are made by
//! the caller on the probe paths listed here; the decisions take the list of
//! probes that exist.
use vstd::prelude::*;
use crate::text::{str_eq, concat};
use crate::paths::{join, join_spec, parent_of, parent_spec, file_name_of, file_name_spec};
use crate::deploy::views;

verus! {

/// The game's main archive, relative to an install root.
pub open spec fn globals_pak() -> Seq<char> {
    "GAMEDATA/PCBANKS/NMSARC.globals.pak"@
}

/// The install folder inside a Steam library.
pub open spec fn nms_in_library() -> Seq<char> {
    "steamapps/common/No Man's Sky"@
}

/// `p` is among the paths found to exist.
pub open spec fn found(existing: Seq<Seq<char>>, p: Seq<char>) -> bool {
    existing.contains(p)
}

fn is_found(existing: &Vec<String>, p: &str) -> (r: bool)
    ensures
        r == found(views(existing@), p@),
{
    let mut i: usize = 0;
    while i < existing.len()
        invariant
            i <= existing@.len(),
            forall|j: int| 0 <= j < i ==> existing@[j]@ != p@,
        decreases existing@.len() - i,
    {
        if str_eq(existing[i].as_str(), p) {
            assert(views(existing@)[i as int] == p@);
            return true;
        }
        i = i + 1;
    }
    assert forall|j: int| 0 <= j < existing@.len() implies views(existing@)[j] != p@ by {}
    false
}

// ---------------------------------------------------------------------------
// Steam libraries
// ---------------------------------------------------------------------------

/// `path` holds the game: either its Steam install folder with the main
/// archive, or the main archive directly.
pub open spec fn has_nms_spec(path: Seq<char>, existing: Seq<Seq<char>>) -> bool {
    let nms = join_spec(path, nms_in_library());
    (found(existing, nms) && found(existing, join_spec(nms, globals_pak())))
        || found(existing, join_spec(path, globals_pak()))
}

/// The paths `has_nms` looks at.
pub fn has_nms_probes(path: &str) -> (r: Vec<String>)
    ensures
        views(r@) == seq![
            join_spec(path@, nms_in_library()),
            join_spec(join_spec(path@, nms_in_library()), globals_pak()),
            join_spec(path@, globals_pak()),
        ],
{
    let nms = join(path, "steamapps/common/No Man's Sky");
    let a = join(nms.as_str(), "GAMEDATA/PCBANKS/NMSARC.globals.pak");
    let b = join(path, "GAMEDATA/PCBANKS/NMSARC.globals.pak");
    let mut v: Vec<String> = Vec::new();
    v.push(nms);
    v.push(a);
    v.push(b);
    assert(views(v@) =~= seq![
        join_spec(path@, nms_in_library()),
        join_spec(join_spec(path@, nms_in_library()), globals_pak()),
        join_spec(path@, globals_pak()),
    ]);
    v
}

/// Whether `path` holds the game, given which probes exist (see
/// `has_nms_spec`).
pub fn has_nms(path: &str, existing: &Vec<String>) -> (r: bool)
    ensures
        r == has_nms_spec(path@, views(existing@)),
{
    let nms = join(path, "steamapps/common/No Man's Sky");
    let a = join(nms.as_str(), "GAMEDATA/PCBANKS/NMSARC.globals.pak");
    if is_found(existing, nms.as_str()) && is_found(existing, a.as_str()) {
        return true;
    }
    let b = join(path, "GAMEDATA/PCBANKS/NMSARC.globals.pak");
    is_found(existing, b.as_str())
}

/// What a library path yields: its Steam install folder when that exists,
/// else the library itself, when it holds the game; failing that, when the
/// main archive sits right under it, the library when it is named
/// `No Man's Sky`, else its parent.
pub open spec fn library_choice_spec(lib: Seq<char>, existing: Seq<Seq<char>>) -> Option<Seq<char>> {
    let nms = join_spec(lib, nms_in_library());
    if has_nms_spec(lib, existing) {
        if found(existing, nms) {
            Some(nms)
        } else {
            Some(lib)
        }
    } else if found(existing, join_spec(lib, globals_pak())) {
        if file_name_spec(lib) == Some("No Man's Sky"@) {
            Some(lib)
        } else {
            match parent_spec(lib) {
                Some(p) => Some(p),
                None => Some(lib),
            }
        }
    } else {
        None
    }
}

/// Decides what a library path yields (see `library_choice_spec`); the
/// probes are those of `has_nms_probes`.
pub fn library_choice(lib: &str, existing: &Vec<String>) -> (r: Option<String>)
    ensures
        match r {
            Some(s) => library_choice_spec(lib@, views(existing@)) == Some(s@),
            None => library_choice_spec(lib@, views(existing@)) is None,
        },
{
    let nms = join(lib, "steamapps/common/No Man's Sky");
    if has_nms(lib, existing) {
        if is_found(existing, nms.as_str()) {
            return Some(nms);
        }
        return Some(lib.to_owned());
    }
    let pak = join(lib, "GAMEDATA/PCBANKS/NMSARC.globals.pak");
    if is_found(existing, pak.as_str()) {
        let named = match file_name_of(lib) {
            Some(n) => str_eq(n.as_str(), "No Man's Sky"),
            None => false,
        };
        if named {
            return Some(lib.to_owned());
        }
        return match parent_of(lib) {
            Some(p) => Some(p),
            None => Some(lib.to_owned()),
        };
    }
    None
}

/// What `"path"\s+"([^"]+)"` captures as group 1, match after match, in a
/// `libraryfolders.vdf` text.
pub uninterp spec fn vdf_paths(text: Seq<char>) -> Seq<Seq<char>>;

/// Calls `regex::Regex::new(r#""path"\s+"([^"]+)""#)` and `captures_iter`,
/// taking group 1 of each match (a group every match of this pattern has).
/// Trusted: the list is `vdf_paths(text)`, and each item is non-empty and
/// holds no `"` (the group is `[^"]+`). The pattern is a constant that
/// compiles, so the `unwrap` does not fail.
#[verifier::external_body]
fn vdf_path_captures(text: &str) -> (r: Vec<String>)
    ensures
        views(r@) == vdf_paths(text@),
        forall|i: int| 0 <= i < r@.len() ==> r@[i]@.len() > 0 && !(#[trigger] r@[i]@).contains('"'),
{
    let re = regex::Regex::new(r#""path"\s+"([^"]+)""#).unwrap();
    re.captures_iter(text).map(|c| c.get(1).map_or(String::new(), |m| m.as_str().to_string())).collect()
}

/// The library folders a `libraryfolders.vdf` lists.
pub fn parse_library_paths(text: &str) -> (r: Vec<String>)
    ensures
        views(r@) == vdf_paths(text@),
        forall|i: int| 0 <= i < r@.len() ==> r@[i]@.len() > 0 && !(#[trigger] r@[i]@).contains('"'),
{
    vdf_path_captures(text)
}

// ---------------------------------------------------------------------------
// Candidate lists
// ---------------------------------------------------------------------------

/// `s` with later repeats of a path left out.
pub open spec fn dedupe(s: Seq<Seq<char>>) -> Seq<Seq<char>>
    decreases s.len(),
{
    if s.len() == 0 {
        s
    } else {
        let d = dedupe(s.drop_last());
        if d.contains(s.last()) {
            d
        } else {
            d.push(s.last())
        }
    }
}

proof fn lemma_push_contains(s: Seq<Seq<char>>, x: Seq<char>, q: Seq<char>)
    ensures
        s.push(x).contains(q) <==> (s.contains(q) || q == x),
{
    if s.push(x).contains(q) {
        let k = s.push(x).index_of(q);
        if k < s.len() {
            assert(s[k] == q);
        }
    }
    if s.contains(q) {
        let k = s.index_of(q);
        assert(s.push(x)[k] == q);
    }
    if q == x {
        assert(s.push(x)[s.len() as int] == q);
    }
}

/// Leaving out repeats keeps one copy of every path, in order of first
/// appearance, and nothing else.
pub proof fn law_dedupe(s: Seq<Seq<char>>)
    ensures
        dedupe(s).no_duplicates(),
        forall|q: Seq<char>| #[trigger] dedupe(s).contains(q) <==> s.contains(q),
    decreases s.len(),
{
    if s.len() > 0 {
        law_dedupe(s.drop_last());
        let d = dedupe(s.drop_last());
        assert forall|q: Seq<char>| #[trigger] s.contains(q) <==> (s.drop_last().contains(q) || q == s.last()) by {
            lemma_push_contains(s.drop_last(), s.last(), q);
            assert(s.drop_last().push(s.last()) =~= s);
        }
        if !d.contains(s.last()) {
            assert forall|q: Seq<char>| #[trigger] d.push(s.last()).contains(q) <==> (d.contains(q) || q == s.last()) by {
                lemma_push_contains(d, s.last(), q);
            }
            assert forall|i: int, j: int| 0 <= i < j < d.push(s.last()).len() implies d.push(s.last())[i] != d.push(s.last())[j] by {
                if j == d.len() {
                    assert(d[i] == d.push(s.last())[i]);
                }
            }
        }
    }
}

/// Leaves out later repeats of a path (see `dedupe`).
pub fn dedupe_paths(paths: Vec<String>) -> (r: Vec<String>)
    ensures
        views(r@) == dedupe(views(paths@)),
{
    let ghost vs = views(paths@);
    let mut out: Vec<String> = Vec::new();
    let mut i: usize = 0;
    assert(vs.take(0) =~= Seq::<Seq<char>>::empty());
    assert(views(out@) =~= Seq::<Seq<char>>::empty());
    while i < paths.len()
        invariant
            i <= paths@.len(),
            vs == views(paths@),
            views(out@) == dedupe(vs.take(i as int)),
        decreases paths@.len() - i,
    {
        let p = &paths[i];
        proof {
            assert(vs.take(i + 1).drop_last() =~= vs.take(i as int));
            assert(vs.take(i + 1).last() == p@);
        }
        if !is_found(&out, p.as_str()) {
            let ghost before = out@;
            out.push(p.clone());
            assert(views(out@) =~= views(before).push(p@));
        }
        i = i + 1;
    }
    assert(vs.take(paths@.len() as int) =~= vs);
    out
}

/// Where Steam keeps `libraryfolders.vdf` under a home directory, each
/// place once.
pub fn candidate_libraryfolders(home: &str) -> (r: Vec<String>)
    ensures
        views(r@) == dedupe(seq![
            join_spec(home@, ".steam/steam/steamapps/libraryfolders.vdf"@),
            join_spec(home@, ".local/share/Steam/steamapps/libraryfolders.vdf"@),
            join_spec(home@, ".var/app/com.valvesoftware.Steam/data/Steam/steamapps/libraryfolders.vdf"@),
            join_spec(home@, ".steam/steamapps/libraryfolders.vdf"@),
            join_spec(home@, "snap/steam/common/.local/share/Steam/steamapps/libraryfolders.vdf"@),
        ]),
{
    let mut v: Vec<String> = Vec::new();
    v.push(join(home, ".steam/steam/steamapps/libraryfolders.vdf"));
    v.push(join(home, ".local/share/Steam/steamapps/libraryfolders.vdf"));
    v.push(join(home, ".var/app/com.valvesoftware.Steam/data/Steam/steamapps/libraryfolders.vdf"));
    v.push(join(home, ".steam/steamapps/libraryfolders.vdf"));
    v.push(join(home, "snap/steam/common/.local/share/Steam/steamapps/libraryfolders.vdf"));
    assert(views(v@) =~= seq![
        join_spec(home@, ".steam/steam/steamapps/libraryfolders.vdf"@),
        join_spec(home@, ".local/share/Steam/steamapps/libraryfolders.vdf"@),
        join_spec(home@, ".var/app/com.valvesoftware.Steam/data/Steam/steamapps/libraryfolders.vdf"@),
        join_spec(home@, ".steam/steamapps/libraryfolders.vdf"@),
        join_spec(home@, "snap/steam/common/.local/share/Steam/steamapps/libraryfolders.vdf"@),
    ]);
    dedupe_paths(v)
}

// ---------------------------------------------------------------------------
// A path the user gave
// ---------------------------------------------------------------------------

/// `p`'s parent, or `p` itself when it has none.
pub open spec fn up(p: Seq<char>) -> Seq<char> {
    match parent_spec(p) {
        Some(q) => q,
        None => p,
    }
}

/// The folders a given path may be the game in: the path and its first
/// three ancestors (a missing ancestor counts as the path itself).
pub open spec fn manual_candidates_spec(p: Seq<char>) -> Seq<Seq<char>> {
    seq![
        p,
        up(p),
        match parent_spec(p) {
            Some(a) => match parent_spec(a) {
                Some(b) => b,
                None => p,
            },
            None => p,
        },
        match parent_spec(p) {
            Some(a) => match parent_spec(a) {
                Some(b) => match parent_spec(b) {
                    Some(c) => c,
                    None => p,
                },
                None => p,
            },
            None => p,
        },
    ]
}

fn up_exec(p: &str) -> (r: String)
    ensures
        r@ == up(p@),
{
    match parent_of(p) {
        Some(q) => q,
        None => p.to_owned(),
    }
}

/// The candidate folders for a given path (see `manual_candidates_spec`).
pub fn manual_candidates(p: &str) -> (r: Vec<String>)
    ensures
        views(r@) == manual_candidates_spec(p@),
{
    let mut v: Vec<String> = Vec::new();
    v.push(p.to_owned());
    v.push(up_exec(p));
    let third = match parent_of(p) {
        Some(a) => match parent_of(a.as_str()) {
            Some(b) => b,
            None => p.to_owned(),
        },
        None => p.to_owned(),
    };
    v.push(third);
    let fourth = match parent_of(p) {
        Some(a) => match parent_of(a.as_str()) {
            Some(b) => match parent_of(b.as_str()) {
                Some(c) => c,
                None => p.to_owned(),
            },
            None => p.to_owned(),
        },
        None => p.to_owned(),
    };
    v.push(fourth);
    assert(views(v@) =~= manual_candidates_spec(p@));
    v
}

/// A candidate folder is the game when the main archive is under it, or
/// when it is named `No Man's Sky`, exists, and has `GAMEDATA`.
pub open spec fn is_install(cand: Seq<char>, existing: Seq<Seq<char>>) -> bool {
    found(existing, join_spec(cand, globals_pak()))
        || (file_name_spec(cand) == Some("No Man's Sky"@) && found(existing, cand) && found(
        existing,
        join_spec(cand, "GAMEDATA"@),
    ))
}

/// The first candidate that is the game.
pub open spec fn first_install(cands: Seq<Seq<char>>, existing: Seq<Seq<char>>, i: int) -> Option<Seq<char>>
    decreases cands.len() - i,
{
    if i < 0 || i >= cands.len() {
        None
    } else if is_install(cands[i], existing) {
        Some(cands[i])
    } else {
        first_install(cands, existing, i + 1)
    }
}

/// The install a given (existing) path `p` points at: the first of its
/// candidates that is the game; else, when `p` is a directory whose parent
/// has `PCBANKS`, its grandparent (when it has one); else `p` itself.
pub open spec fn manual_choice_spec(p: Seq<char>, p_is_dir: bool, existing: Seq<Seq<char>>) -> Seq<char> {
    match first_install(manual_candidates_spec(p), existing, 0) {
        Some(c) => c,
        None => {
            let pcbanks = match parent_spec(p) {
                Some(pr) => found(existing, join_spec(pr, "PCBANKS"@)),
                None => false,
            };
            if p_is_dir && pcbanks {
                match parent_spec(p) {
                    Some(pr) => match parent_spec(pr) {
                        Some(g) => g,
                        None => p,
                    },
                    None => p,
                }
            } else {
                p
            }
        },
    }
}

/// The paths `manual_choice` looks at: for each candidate its main
/// archive, itself and its `GAMEDATA`; then `PCBANKS` beside `p`.
pub fn manual_probes(p: &str) -> (r: Vec<String>)
    ensures
        forall|i: int| 0 <= i < 4 ==> views(r@).contains(join_spec(#[trigger] manual_candidates_spec(p@)[i], globals_pak()))
            && views(r@).contains(manual_candidates_spec(p@)[i])
            && views(r@).contains(join_spec(manual_candidates_spec(p@)[i], "GAMEDATA"@)),
        parent_spec(p@) matches Some(pr) ==> views(r@).contains(join_spec(pr, "PCBANKS"@)),
{
    let cands = manual_candidates(p);
    assert(views(cands@).len() == 4);
    let mut v: Vec<String> = Vec::new();
    let mut i: usize = 0;
    while i < 4
        invariant
            i <= 4,
            cands@.len() == 4,
            views(cands@) == manual_candidates_spec(p@),
            v@.len() == 3 * i,
            forall|j: int, k: int| #![trigger v@[k], cands@[j]] 0 <= j < i && k == 3 * j ==> v@[k]@ == join_spec(cands@[j]@, globals_pak())
                && v@[k + 1]@ == cands@[j]@ && v@[k + 2]@ == join_spec(cands@[j]@, "GAMEDATA"@),
        decreases 4 - i,
    {
        let c = &cands[i];
        let ghost before = v@;
        v.push(join(c.as_str(), "GAMEDATA/PCBANKS/NMSARC.globals.pak"));
        v.push(c.clone());
        v.push(join(c.as_str(), "GAMEDATA"));
        proof {
            assert forall|j: int, k: int| #![trigger v@[k], cands@[j]] 0 <= j < i + 1 && k == 3 * j implies v@[k]@ == join_spec(cands@[j]@, globals_pak())
                && v@[k + 1]@ == cands@[j]@ && v@[k + 2]@ == join_spec(cands@[j]@, "GAMEDATA"@) by {
                if j < i {
                    assert(v@[k] == before[k]);
                    assert(v@[k + 1] == before[k + 1]);
                    assert(v@[k + 2] == before[k + 2]);
                }
            }
        }
        i = i + 1;
    }
    match parent_of(p) {
        Some(pr) => {
            v.push(join(pr.as_str(), "PCBANKS"));
            assert(views(v@)[12] == join_spec(pr@, "PCBANKS"@));
        },
        None => {},
    }
    assert forall|i: int| 0 <= i < 4 implies views(v@).contains(join_spec(#[trigger] manual_candidates_spec(p@)[i], globals_pak()))
        && views(v@).contains(manual_candidates_spec(p@)[i])
        && views(v@).contains(join_spec(manual_candidates_spec(p@)[i], "GAMEDATA"@)) by {
        assert(manual_candidates_spec(p@)[i] == views(cands@)[i]);
        let k = 3 * i;
        assert(v@[k]@ == join_spec(cands@[i]@, globals_pak()));
        assert(views(v@)[k] == join_spec(cands@[i]@, globals_pak()));
        assert(views(v@)[k + 1] == cands@[i]@);
        assert(views(v@)[k + 2] == join_spec(cands@[i]@, "GAMEDATA"@));
    }
    v
}

/// Decides the install a given path points at (see `manual_choice_spec`).
pub fn manual_choice(p: &str, p_is_dir: bool, existing: &Vec<String>) -> (r: String)
    ensures
        r@ == manual_choice_spec(p@, p_is_dir, views(existing@)),
{
    let cands = manual_candidates(p);
    let ghost cs = manual_candidates_spec(p@);
    let mut i: usize = 0;
    while i < cands.len()
        invariant
            i <= cands@.len(),
            views(cands@) == cs,
            cs == manual_candidates_spec(p@),
            first_install(cs, views(existing@), 0) == first_install(cs, views(existing@), i as int),
        decreases cands@.len() - i,
    {
        let c = &cands[i];
        assert(cs[i as int] == c@);
        let pak = join(c.as_str(), "GAMEDATA/PCBANKS/NMSARC.globals.pak");
        let named = match file_name_of(c.as_str()) {
            Some(n) => str_eq(n.as_str(), "No Man's Sky"),
            None => false,
        };
        let gd = join(c.as_str(), "GAMEDATA");
        if is_found(existing, pak.as_str()) || (named && is_found(existing, c.as_str()) && is_found(existing, gd.as_str())) {
            return c.clone();
        }
        i = i + 1;
    }
    let pcbanks = match parent_of(p) {
        Some(pr) => {
            let q = join(pr.as_str(), "PCBANKS");
            is_found(existing, q.as_str())
        },
        None => false,
    };
    if p_is_dir && pcbanks {
        match parent_of(p) {
            Some(pr) => match parent_of(pr.as_str()) {
                Some(g) => return g,
                None => {},
            },
            None => {},
        }
    }
    p.to_owned()
}

// ---------------------------------------------------------------------------
// Last resorts
// ---------------------------------------------------------------------------

/// The usual install folders under a home directory.
pub fn home_fallbacks(home: &str) -> (r: Vec<String>)
    ensures
        views(r@) == seq![
            join_spec(home@, ".local/share/Steam/steamapps/common/No Man's Sky"@),
            join_spec(home@, ".steam/steam/steamapps/common/No Man's Sky"@),
            join_spec(home@, ".var/app/com.valvesoftware.Steam/data/Steam/steamapps/common/No Man's Sky"@),
        ],
{
    let mut v: Vec<String> = Vec::new();
    v.push(join(home, ".local/share/Steam/steamapps/common/No Man's Sky"));
    v.push(join(home, ".steam/steam/steamapps/common/No Man's Sky"));
    v.push(join(home, ".var/app/com.valvesoftware.Steam/data/Steam/steamapps/common/No Man's Sky"));
    assert(views(v@) =~= seq![
        join_spec(home@, ".local/share/Steam/steamapps/common/No Man's Sky"@),
        join_spec(home@, ".steam/steam/steamapps/common/No Man's Sky"@),
        join_spec(home@, ".var/app/com.valvesoftware.Steam/data/Steam/steamapps/common/No Man's Sky"@),
    ]);
    v
}

/// The three Steam install folders looked for on a Windows drive.
pub open spec fn drive_paths(drive: Seq<char>) -> Seq<Seq<char>> {
    seq![
        drive + "/Program Files (x86)/Steam/steamapps/common/No Man's Sky"@,
        drive + "/Steam/steamapps/common/No Man's Sky"@,
        drive + "/SteamLibrary/steamapps/common/No Man's Sky"@,
    ]
}

/// The install folders looked for on Windows: drives `C:` to `F:` in turn,
/// three folders on each.
pub open spec fn windows_drive_spec() -> Seq<Seq<char>> {
    drive_paths("C:"@) + drive_paths("D:"@) + drive_paths("E:"@) + drive_paths("F:"@)
}

fn push_drive_paths(v: &mut Vec<String>, drive: &str)
    ensures
        views(final(v)@) == views(old(v)@) + drive_paths(drive@),
{
    let ghost before = views(v@);
    v.push(concat(drive, "/Program Files (x86)/Steam/steamapps/common/No Man's Sky"));
    v.push(concat(drive, "/Steam/steamapps/common/No Man's Sky"));
    v.push(concat(drive, "/SteamLibrary/steamapps/common/No Man's Sky"));
    assert(views(v@) =~= before + drive_paths(drive@));
}

/// The install folders a Windows machine is searched for, in order (see
/// `windows_drive_spec`).
pub fn windows_drive_candidates() -> (r: Vec<String>)
    ensures
        views(r@) == windows_drive_spec(),
{
    let mut v: Vec<String> = Vec::new();
    assert(views(v@) =~= Seq::<Seq<char>>::empty());
    push_drive_paths(&mut v, "C:");
    push_drive_paths(&mut v, "D:");
    push_drive_paths(&mut v, "E:");
    push_drive_paths(&mut v, "F:");
    assert(views(v@) =~= windows_drive_spec());
    v
}

/// The first of `cands` found to exist.
pub open spec fn first_found(cands: Seq<Seq<char>>, existing: Seq<Seq<char>>, i: int) -> Option<Seq<char>>
    decreases cands.len() - i,
{
    if i < 0 || i >= cands.len() {
        None
    } else if found(existing, cands[i]) {
        Some(cands[i])
    } else {
        first_found(cands, existing, i + 1)
    }
}

/// Picks the first candidate that exists (see `first_found`).
pub fn pick_existing(cands: &Vec<String>, existing: &Vec<String>) -> (r: Option<String>)
    ensures
        opt_views(r) == first_found(views(cands@), views(existing@), 0),
{
    let ghost cs = views(cands@);
    let mut i: usize = 0;
    while i < cands.len()
        invariant
            i <= cands@.len(),
            cs == views(cands@),
            first_found(cs, views(existing@), 0) == first_found(cs, views(existing@), i as int),
        decreases cands@.len() - i,
    {
        if is_found(existing, cands[i].as_str()) {
            return Some(cands[i].clone());
        }
        i = i + 1;
    }
    None
}

/// The install folder of a Steam library on a mounted drive.
pub fn mount_candidate(child: &str) -> (r: String)
    ensures
        r@ == join_spec(child@, "SteamLibrary/steamapps/common/No Man's Sky"@),
{
    join(child, "SteamLibrary/steamapps/common/No Man's Sky")
}

/// The first fallback that exists and has the main archive.
pub open spec fn first_complete(cands: Seq<Seq<char>>, existing: Seq<Seq<char>>, i: int) -> Option<Seq<char>>
    decreases cands.len() - i,
{
    if i < 0 || i >= cands.len() {
        None
    } else if found(existing, cands[i]) && found(existing, join_spec(cands[i], globals_pak())) {
        Some(cands[i])
    } else {
        first_complete(cands, existing, i + 1)
    }
}

/// Picks the first complete fallback (see `first_complete`).
pub fn pick_fallback(cands: &Vec<String>, existing: &Vec<String>) -> (r: Option<String>)
    ensures
        opt_views(r) == first_complete(views(cands@), views(existing@), 0),
{
    let ghost cs = views(cands@);
    let mut i: usize = 0;
    while i < cands.len()
        invariant
            i <= cands@.len(),
            cs == views(cands@),
            first_complete(cs, views(existing@), 0) == first_complete(cs, views(existing@), i as int),
        decreases cands@.len() - i,
    {
        let c = &cands[i];
        assert(cs[i as int] == c@);
        let pak = join(c.as_str(), "GAMEDATA/PCBANKS/NMSARC.globals.pak");
        if is_found(existing, c.as_str()) && is_found(existing, pak.as_str()) {
            return Some(c.clone());
        }
        i = i + 1;
    }
    None
}

/// The view of an optional string.
pub open spec fn opt_views(o: Option<String>) -> Option<Seq<char>> {
    match o {
        Some(s) => Some(s@),
        None => None,
    }
}

} // verus!
