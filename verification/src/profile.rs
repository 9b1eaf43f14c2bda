//! Profiles (a load order and which mods are enabled) and the app's
//! settings.
use vstd::prelude::*;
use crate::text::{concat, str_eq};
use crate::json::{Json, JsonValue};
use crate::paths::{join, join_spec, ext_spec, stem_spec, name_ext, name_stem};
use crate::sort::{sort_by_text, stable_sort, text_keyed, text_lt};
use crate::store::{lower_text, to_lower};
use crate::deploy::views;

verus! {

// ---------------------------------------------------------------------------
// Profiles
// ---------------------------------------------------------------------------

/// A profile: its name, the load order of mod ids, and for each id whether
/// it is enabled (one entry per id). The flags are kept as a list of
/// `(id, flag)` pairs with distinct ids rather than a `HashMap<String, bool>`:
/// vstd proves next to nothing of a std map keyed by `String`, and its
/// `StringHashMap` (which the key mapping uses for lookups) has no `Debug`,
/// `PartialEq` or `Clone` and cannot be walked, while a profile is compared,
/// printed and handed back whole to be saved. The list with its invariant
/// lets `flags()` be stated and proved exactly.
#[derive(Debug, PartialEq)]
pub struct Profile {
    pub name: String,
    pub mod_order: Vec<String>,
    pub enabled: Vec<(String, bool)>,
}

/// The ids of a list of `(id, flag)` entries.
pub open spec fn entry_keys(s: Seq<(String, bool)>) -> Seq<Seq<char>> {
    Seq::new(s.len(), |i: int| s[i].0@)
}

/// The enabled flags as a map from id.
pub open spec fn flags_of(s: Seq<(String, bool)>) -> Map<Seq<char>, bool>
    decreases s.len(),
{
    if s.len() == 0 {
        Map::empty()
    } else {
        flags_of(s.drop_last()).insert(s.last().0@, s.last().1)
    }
}

proof fn lemma_flags_dom(s: Seq<(String, bool)>, k: Seq<char>)
    ensures
        flags_of(s).contains_key(k) <==> entry_keys(s).contains(k),
    decreases s.len(),
{
    if s.len() > 0 {
        lemma_flags_dom(s.drop_last(), k);
        assert(entry_keys(s.drop_last()) =~= entry_keys(s).drop_last());
        if entry_keys(s).contains(k) && k != s.last().0@ {
            let i = entry_keys(s).index_of(k);
            assert(i < s.len() - 1);
            assert(entry_keys(s.drop_last())[i] == k);
        }
        if entry_keys(s.drop_last()).contains(k) {
            let i = entry_keys(s.drop_last()).index_of(k);
            assert(entry_keys(s)[i] == k);
        }
        if k == s.last().0@ {
            assert(entry_keys(s)[s.len() - 1] == k);
        }
    }
}

impl Profile {
    /// One entry per id in `enabled`.
    pub open spec fn wf(&self) -> bool {
        entry_keys(self.enabled@).no_duplicates()
    }

    /// The ids in load order.
    pub open spec fn order(&self) -> Seq<Seq<char>> {
        views(self.mod_order@)
    }

    /// Which ids are enabled.
    pub open spec fn flags(&self) -> Map<Seq<char>, bool> {
        flags_of(self.enabled@)
    }
}

/// Ids keyed by their lowercase.
pub open spec fn ids_by_lower(ids: Seq<String>) -> Seq<(Seq<char>, String)> {
    Seq::new(ids.len(), |i: int| (lower_text(ids[i]@), ids[i]))
}

/// The ids of a keyed list.
pub open spec fn keyed_ids(s: Seq<(Seq<char>, String)>) -> Seq<Seq<char>> {
    Seq::new(s.len(), |i: int| s[i].1@)
}

/// A new profile's load order: the store's ids, sorted by their lowercase
/// (stably).
pub open spec fn initial_order(ids: Seq<String>) -> Seq<Seq<char>> {
    keyed_ids(stable_sort(ids_by_lower(ids), text_lt()))
}

/// Every id of `ids`, enabled.
pub open spec fn all_enabled(ids: Seq<Seq<char>>) -> Map<Seq<char>, bool> {
    Map::new(|k: Seq<char>| ids.contains(k), |k: Seq<char>| true)
}

fn find_flag(es: &Vec<(String, bool)>, k: &str) -> (r: Option<usize>)
    ensures
        match r {
            Some(j) => j < es@.len() && es@[j as int].0@ == k@,
            None => !entry_keys(es@).contains(k@),
        },
{
    let mut i: usize = 0;
    while i < es.len()
        invariant
            i <= es@.len(),
            forall|j: int| 0 <= j < i ==> es@[j].0@ != k@,
        decreases es@.len() - i,
    {
        if str_eq(es[i].0.as_str(), k) {
            return Some(i);
        }
        i = i + 1;
    }
    assert forall|j: int| 0 <= j < es@.len() implies entry_keys(es@)[j] != k@ by {}
    None
}

proof fn lemma_flags_push(s: Seq<(String, bool)>, e: (String, bool))
    requires
        entry_keys(s).no_duplicates(),
        !entry_keys(s).contains(e.0@),
    ensures
        entry_keys(s.push(e)).no_duplicates(),
        flags_of(s.push(e)) == flags_of(s).insert(e.0@, e.1),
{
    let t = s.push(e);
    assert(t.drop_last() =~= s);
    assert(entry_keys(t) =~= entry_keys(s).push(e.0@));
    assert forall|i: int, j: int| 0 <= i < j < entry_keys(t).len() implies entry_keys(t)[i] != entry_keys(t)[j] by {
        if j == s.len() {
            assert(entry_keys(s)[i] == entry_keys(t)[i]);
        }
    }
}

proof fn lemma_push_contains(s: Seq<Seq<char>>, x: Seq<char>, q: Seq<char>)
    ensures
        s.push(x).contains(q) <==> (s.contains(q) || q == x),
{
    if s.push(x).contains(q) {
        let k = s.push(x).index_of(q);
        if k < s.len() {
            assert(s[k] == q);
        }
    }
    if s.contains(q) {
        let k = s.index_of(q);
        assert(s.push(x)[k] == q);
    }
    if q == x {
        assert(s.push(x)[s.len() as int] == q);
    }
}

/// The profile named `name` that a new store gets: its ids sorted by
/// lowercase, all enabled.
pub fn new_profile(name: &str, ids: &Vec<String>) -> (p: Profile)
    ensures
        p.wf(),
        p.name@ == name@,
        p.order() == initial_order(ids@),
        p.flags() == all_enabled(views(ids@)),
{
    let mut keyed: Vec<(String, String)> = Vec::new();
    let mut enabled: Vec<(String, bool)> = Vec::new();
    let mut i: usize = 0;
    while i < ids.len()
        invariant
            i <= ids@.len(),
            keyed@.len() == i,
            text_keyed(keyed@) == ids_by_lower(ids@.take(i as int)),
            entry_keys(enabled@).no_duplicates(),
            flags_of(enabled@) == all_enabled(views(ids@.take(i as int))),
        decreases ids@.len() - i,
    {
        let id = &ids[i];
        let k = to_lower(id.as_str());
        let ghost before = keyed@;
        keyed.push((k, id.clone()));
        proof {
            assert forall|j: int| 0 <= j < i + 1 implies #[trigger] text_keyed(keyed@)[j] == ids_by_lower(ids@.take(i + 1))[j] by {
                if j < i {
                    assert(text_keyed(keyed@)[j] == text_keyed(before)[j]);
                }
            }
            assert(text_keyed(keyed@) =~= ids_by_lower(ids@.take(i + 1)));
            assert(views(ids@.take(i + 1)) =~= views(ids@.take(i as int)).push(id@));
        }
        match find_flag(&enabled, id.as_str()) {
            Some(j) => {
                proof {
                    assert(entry_keys(enabled@)[j as int] == id@);
                    lemma_flags_dom(enabled@, id@);
                    assert(entry_keys(enabled@).contains(id@));
                    assert forall|q: Seq<char>| #[trigger] flags_of(enabled@).contains_key(q) == all_enabled(views(ids@.take(i + 1))).contains_key(q) by {
                        lemma_push_contains(views(ids@.take(i as int)), id@, q);
                    }
                    assert(flags_of(enabled@) =~= all_enabled(views(ids@.take(i + 1))));
                }
            },
            None => {
                let ghost eb = enabled@;
                let entry = (id.clone(), true);
                let ghost ge = entry;
                enabled.push(entry);
                proof {
                    lemma_flags_push(eb, ge);
                    lemma_flags_dom(eb, id@);
                    assert(!flags_of(eb).contains_key(id@));
                    assert forall|q: Seq<char>| #[trigger] flags_of(enabled@).contains_key(q) == all_enabled(views(ids@.take(i + 1))).contains_key(q) by {
                        lemma_push_contains(views(ids@.take(i as int)), id@, q);
                    }
                    assert(flags_of(enabled@) =~= all_enabled(views(ids@.take(i + 1))));
                }
            },
        }
        i = i + 1;
    }
    assert(ids@.take(ids@.len() as int) =~= ids@);
    let sorted = sort_by_text(keyed);
    let mut order: Vec<String> = Vec::new();
    let mut j: usize = 0;
    let ghost ss = text_keyed(sorted@);
    while j < sorted.len()
        invariant
            j <= sorted@.len(),
            ss == text_keyed(sorted@),
            order@.len() == j,
            forall|q: int| 0 <= q < j ==> #[trigger] order@[q]@ == sorted@[q].1@,
        decreases sorted@.len() - j,
    {
        order.push(sorted[j].1.clone());
        j = j + 1;
    }
    let p = Profile { name: name.to_owned(), mod_order: order, enabled };
    assert(p.order() =~= keyed_ids(ss));
    p
}

/// Bringing a profile up to date with the store: each id of `ids` missing
/// from the load order is appended (in the order of `ids`), and each id
/// without a flag is enabled.
pub open spec fn sync_order(order: Seq<Seq<char>>, ids: Seq<Seq<char>>) -> Seq<Seq<char>>
    decreases ids.len(),
{
    if ids.len() == 0 {
        order
    } else {
        let o = sync_order(order, ids.drop_last());
        if o.contains(ids.last()) {
            o
        } else {
            o.push(ids.last())
        }
    }
}

/// The flags after a sync (see `sync_order`).
pub open spec fn sync_flags(flags: Map<Seq<char>, bool>, ids: Seq<Seq<char>>) -> Map<Seq<char>, bool>
    decreases ids.len(),
{
    if ids.len() == 0 {
        flags
    } else {
        let f = sync_flags(flags, ids.drop_last());
        if f.contains_key(ids.last()) {
            f
        } else {
            f.insert(ids.last(), true)
        }
    }
}

/// A sync changes the profile exactly when some id of `ids` was missing
/// from the load order or had no flag.
pub open spec fn sync_changes(order: Seq<Seq<char>>, flags: Map<Seq<char>, bool>, ids: Seq<Seq<char>>) -> bool {
    exists|i: int| 0 <= i < ids.len() && (!order.contains(#[trigger] ids[i]) || !flags.contains_key(ids[i]))
}

fn order_contains(order: &Vec<String>, k: &str) -> (r: bool)
    ensures
        r == views(order@).contains(k@),
{
    let mut i: usize = 0;
    while i < order.len()
        invariant
            i <= order@.len(),
            forall|j: int| 0 <= j < i ==> order@[j]@ != k@,
        decreases order@.len() - i,
    {
        if str_eq(order[i].as_str(), k) {
            assert(views(order@)[i as int] == k@);
            return true;
        }
        i = i + 1;
    }
    assert forall|j: int| 0 <= j < order@.len() implies views(order@)[j] != k@ by {}
    false
}

proof fn lemma_sync_contains(order: Seq<Seq<char>>, flags: Map<Seq<char>, bool>, ids: Seq<Seq<char>>, x: Seq<char>)
    ensures
        sync_order(order, ids).contains(x) <==> (order.contains(x) || ids.contains(x)),
        sync_flags(flags, ids).contains_key(x) <==> (flags.contains_key(x) || ids.contains(x)),
    decreases ids.len(),
{
    if ids.len() > 0 {
        lemma_sync_contains(order, flags, ids.drop_last(), x);
        let o = sync_order(order, ids.drop_last());
        let l = ids.last();
        assert(ids.contains(x) <==> (ids.drop_last().contains(x) || l == x)) by {
            if ids.contains(x) {
                let k = ids.index_of(x);
                if k < ids.len() - 1 {
                    assert(ids.drop_last()[k] == x);
                }
            }
            if ids.drop_last().contains(x) {
                let k = ids.drop_last().index_of(x);
                assert(ids[k] == x);
            }
            if l == x {
                assert(ids[ids.len() - 1] == x);
            }
        }
        if !o.contains(l) {
            assert(o.push(l).contains(x) <==> (o.contains(x) || l == x)) by {
                if o.push(l).contains(x) {
                    let k = o.push(l).index_of(x);
                    if k < o.len() {
                        assert(o[k] == x);
                    }
                }
                if o.contains(x) {
                    let k = o.index_of(x);
                    assert(o.push(l)[k] == x);
                }
                if l == x {
                    assert(o.push(l)[o.len() as int] == x);
                }
            }
        }
    }
}

/// Brings `p` up to date with the store's ids (see `sync_order`); returns
/// whether anything changed.
pub fn sync_profile(p: &mut Profile, ids: &Vec<String>) -> (changed: bool)
    requires
        old(p).wf(),
    ensures
        final(p).wf(),
        final(p).name == old(p).name,
        final(p).order() == sync_order(old(p).order(), views(ids@)),
        final(p).flags() == sync_flags(old(p).flags(), views(ids@)),
        changed == sync_changes(old(p).order(), old(p).flags(), views(ids@)),
{
    let ghost o0 = p.order();
    let ghost f0 = p.flags();
    let ghost vs = views(ids@);
    let mut changed = false;
    let mut i: usize = 0;
    while i < ids.len()
        invariant
            i <= ids@.len(),
            vs == views(ids@),
            p.wf(),
            p.name == old(p).name,
            o0 == old(p).order(),
            f0 == old(p).flags(),
            p.order() == sync_order(o0, vs.take(i as int)),
            p.flags() == sync_flags(f0, vs.take(i as int)),
            changed == sync_changes(o0, f0, vs.take(i as int)),
        decreases ids@.len() - i,
    {
        let id = &ids[i];
        let ghost pre = vs.take(i as int);
        let ghost nxt = vs.take(i + 1);
        proof {
            assert(nxt.drop_last() =~= pre);
            assert(nxt.last() == id@);
        }
        let in_order = order_contains(&p.mod_order, id.as_str());
        let has_flag = match find_flag(&p.enabled, id.as_str()) {
            Some(j) => {
                proof {
                    assert(entry_keys(p.enabled@)[j as int] == id@);
                }
                true
            },
            None => false,
        };
        proof {
            lemma_flags_dom(p.enabled@, id@);
            lemma_sync_contains(o0, f0, pre, id@);
        }
        if !in_order {
            let ghost before = p.mod_order@;
            p.mod_order.push(id.clone());
            assert(views(p.mod_order@) =~= views(before).push(id@));
            assert(sync_order(o0, nxt) == sync_order(o0, pre).push(id@));
            changed = true;
        }
        if !has_flag {
            let ghost eb = p.enabled@;
            let entry = (id.clone(), true);
            let ghost ge = entry;
            p.enabled.push(entry);
            proof {
                lemma_flags_push(eb, ge);
                assert(sync_flags(f0, nxt) == sync_flags(f0, pre).insert(id@, true));
            }
            changed = true;
        }
        proof {
            assert(sync_changes(o0, f0, nxt) == (sync_changes(o0, f0, pre) || !o0.contains(id@) || !f0.contains_key(id@))) by {
                if sync_changes(o0, f0, nxt) && !sync_changes(o0, f0, pre) {
                    let w = choose|q: int| 0 <= q < nxt.len() && (!o0.contains(#[trigger] nxt[q]) || !f0.contains_key(nxt[q]));
                    if w < i {
                        assert(pre[w] == nxt[w]);
                    }
                }
                if !o0.contains(id@) || !f0.contains_key(id@) {
                    assert(nxt[i as int] == id@);
                }
                if pre.contains(id@) && !sync_changes(o0, f0, pre) {
                    let k = pre.index_of(id@);
                    assert(o0.contains(pre[k]) && f0.contains_key(pre[k]));
                }
                if sync_changes(o0, f0, pre) {
                    let w = choose|q: int| 0 <= q < pre.len() && (!o0.contains(#[trigger] pre[q]) || !f0.contains_key(pre[q]));
                    assert(nxt[w] == pre[w]);
                }
            }
        }
        i = i + 1;
    }
    assert(vs.take(ids@.len() as int) =~= vs);
    changed
}

/// Syncing is idempotent: after a sync with the store's ids, every one of
/// them is in the load order and has a flag, so syncing again with the same
/// ids changes nothing.
pub proof fn law_sync_idempotent(order: Seq<Seq<char>>, flags: Map<Seq<char>, bool>, ids: Seq<Seq<char>>)
    ensures
        forall|i: int| 0 <= i < ids.len() ==> sync_order(order, ids).contains(#[trigger] ids[i])
            && sync_flags(flags, ids).contains_key(ids[i]),
        !sync_changes(sync_order(order, ids), sync_flags(flags, ids), ids),
{
    assert forall|i: int| 0 <= i < ids.len() implies sync_order(order, ids).contains(#[trigger] ids[i])
        && sync_flags(flags, ids).contains_key(ids[i]) by {
        assert(ids.contains(ids[i]));
        lemma_sync_contains(order, flags, ids, ids[i]);
    }
}

/// A sync keeps what the user chose: the old load order stays in front,
/// unchanged, and every id that had a flag keeps it; what it adds are ids
/// of the store.
pub proof fn law_sync_keeps_choices(order: Seq<Seq<char>>, flags: Map<Seq<char>, bool>, ids: Seq<Seq<char>>)
    ensures
        sync_order(order, ids).len() >= order.len(),
        sync_order(order, ids).take(order.len() as int) == order,
        forall|j: int| order.len() <= j < sync_order(order, ids).len() ==> ids.contains(#[trigger] sync_order(order, ids)[j]),
        forall|k: Seq<char>| #[trigger] flags.contains_key(k) ==> sync_flags(flags, ids).contains_key(k) && sync_flags(flags, ids)[k] == flags[k],
        forall|k: Seq<char>| #[trigger] sync_flags(flags, ids).contains_key(k) && !flags.contains_key(k) ==> ids.contains(k) && sync_flags(flags, ids)[k],
    decreases ids.len(),
{
    if ids.len() > 0 {
        let rest = ids.drop_last();
        law_sync_keeps_choices(order, flags, rest);
        let o = sync_order(order, rest);
        let l = ids.last();
        assert forall|x: Seq<char>| rest.contains(x) implies ids.contains(x) by {
            let k = rest.index_of(x);
            assert(ids[k] == x);
        }
        assert(ids.contains(l)) by {
            assert(ids[ids.len() - 1] == l);
        }
        let f = sync_flags(flags, rest);
        assert forall|k: Seq<char>| #[trigger] sync_flags(flags, ids).contains_key(k) && !flags.contains_key(k) implies ids.contains(k) && sync_flags(flags, ids)[k] by {
            if k != l || f.contains_key(l) {
                assert(f.contains_key(k));
            }
        }
        if !o.contains(l) {
            assert(o.push(l).take(order.len() as int) =~= o.take(order.len() as int));
            assert forall|j: int| order.len() <= j < o.push(l).len() implies ids.contains(#[trigger] o.push(l)[j]) by {
                if j < o.len() {
                    assert(o.push(l)[j] == o[j]);
                    assert(rest.contains(o[j]));
                }
            }
        }
    }
}

/// The file a profile is kept in: `<name>.json` under `dir`.
pub fn profile_path(dir: &str, name: &str) -> (r: String)
    ensures
        r@ == join_spec(dir@, name@ + ".json"@),
{
    let f = concat(name, ".json");
    join(dir, f.as_str())
}

/// The profile names among the file names of the profiles folder: the
/// stems of the `.json` files, keyed for sorting by themselves.
pub open spec fn profile_keys(files: Seq<String>) -> Seq<(Seq<char>, String)>
    decreases files.len(),
{
    if files.len() == 0 {
        Seq::empty()
    } else {
        let rest = profile_keys(files.drop_last());
        let f = files.last()@;
        if ext_spec(f) == Some("json"@) {
            rest.push((stem_spec(f), files.last()))
        } else {
            rest
        }
    }
}

/// The profile names, sorted.
pub open spec fn profile_names_spec(files: Seq<String>) -> Seq<Seq<char>> {
    Seq::new(
        stable_sort(profile_keys(files), text_lt()).len(),
        |i: int| stable_sort(profile_keys(files), text_lt())[i].0,
    )
}

/// Lists the profiles from the file names of the profiles folder (see
/// `profile_names_spec`).
pub fn profile_names(files: &Vec<String>) -> (r: Vec<String>)
    ensures
        views(r@) == profile_names_spec(files@),
{
    let mut keyed: Vec<(String, String)> = Vec::new();
    let mut i: usize = 0;
    while i < files.len()
        invariant
            i <= files@.len(),
            text_keyed(keyed@) == profile_keys(files@.take(i as int)),
        decreases files@.len() - i,
    {
        let f = &files[i];
        proof {
            assert(files@.take(i + 1).drop_last() =~= files@.take(i as int));
            assert(files@.take(i + 1).last() == *f);
        }
        let is_json = match name_ext(f.as_str()) {
            Some(e) => str_eq(e.as_str(), "json"),
            None => false,
        };
        if is_json {
            let stem = name_stem(f.as_str());
            let ghost before = keyed@;
            keyed.push((stem, f.clone()));
            assert(text_keyed(keyed@) =~= text_keyed(before).push((keyed@.last().0@, keyed@.last().1)));
        }
        i = i + 1;
    }
    assert(files@.take(files@.len() as int) =~= files@);
    let sorted = sort_by_text(keyed);
    let ghost ss = text_keyed(sorted@);
    let mut out: Vec<String> = Vec::new();
    let mut j: usize = 0;
    while j < sorted.len()
        invariant
            j <= sorted@.len(),
            ss == text_keyed(sorted@),
            out@.len() == j,
            forall|q: int| 0 <= q < j ==> #[trigger] out@[q]@ == sorted@[q].0@,
        decreases sorted@.len() - j,
    {
        out.push(sorted[j].0.clone());
        j = j + 1;
    }
    assert(views(out@) =~= profile_names_spec(files@));
    out
}

/// A new profile may not take an existing profile's name.
pub fn create_check(name: &str, exists: bool) -> (r: Result<(), String>)
    ensures
        match r {
            Ok(_) => !exists,
            Err(e) => exists && e@ == "Profile "@ + name@ + " already exists"@,
        },
{
    if exists {
        let a = concat("Profile ", name);
        return Err(concat(a.as_str(), " already exists"));
    }
    Ok(())
}

/// Renaming a profile: nothing to do for the same name (`Ok(false)`); the
/// source must exist and the target must not (`Ok(true)`: go ahead).
pub fn rename_check(old: &str, new: &str, src_exists: bool, dst_exists: bool) -> (r: Result<bool, String>)
    ensures
        match r {
            Ok(go) => (old@ == new@ && !go) || (old@ != new@ && go && src_exists && !dst_exists),
            Err(e) => old@ != new@ && ((!src_exists && e@ == "source not found"@) || (src_exists
                && dst_exists && e@ == "Profile "@ + new@ + " already exists"@)),
        },
{
    if str_eq(old, new) {
        return Ok(false);
    }
    if !src_exists {
        return Err("source not found".to_owned());
    }
    if dst_exists {
        let a = concat("Profile ", new);
        return Err(concat(a.as_str(), " already exists"));
    }
    Ok(true)
}

// ---------------------------------------------------------------------------
// Settings
// ---------------------------------------------------------------------------

/// The app's settings.
#[derive(Debug, PartialEq)]
pub struct AppConfig {
    pub game_path: Option<String>,
    /// `auto`, `symlink` or `copy`.
    pub deploy_mode: String,
    pub active_profile: String,
    pub global_disable: bool,
    pub theme: String,
    pub font: String,
    pub auto_deploy: bool,
}

impl Default for AppConfig {
    fn default() -> (r: AppConfig)
        ensures
            r.game_path is None,
            r.deploy_mode@ == "auto"@,
            r.active_profile@ == "default"@,
            !r.global_disable,
            r.theme@ == "default"@,
            r.font@ == "inter"@,
            !r.auto_deploy,
    {
        AppConfig {
            game_path: None,
            deploy_mode: "auto".to_owned(),
            active_profile: "default".to_owned(),
            global_disable: false,
            theme: "default".to_owned(),
            font: "inter".to_owned(),
            auto_deploy: false,
        }
    }
}

/// A string setting: the stored value when it is a string, else `dflt`.
pub open spec fn text_setting(v: Option<Json>, dflt: Seq<char>) -> Seq<char> {
    match v {
        Some(Json::Str(s)) => s,
        _ => dflt,
    }
}

/// A flag setting: the stored value when it is a boolean, else `dflt`.
pub open spec fn flag_setting(v: Option<Json>, dflt: bool) -> bool {
    match v {
        Some(Json::Bool(b)) => b,
        _ => dflt,
    }
}

/// The settings read from the settings store `store`, starting from the
/// defaults; and whether the store holds any of the keys that show it has
/// been written (all but `global_disable`).
pub open spec fn config_from_store_spec(store: Json) -> (Option<Seq<char>>, Seq<char>, Seq<char>, bool, Seq<char>, Seq<char>, bool, bool) {
    (
        match store.get_key("game_path"@) {
            Some(Json::Str(s)) => Some(s),
            _ => None,
        },
        text_setting(store.get_key("deploy_mode"@), "auto"@),
        text_setting(store.get_key("active_profile"@), "default"@),
        flag_setting(store.get_key("global_disable"@), false),
        text_setting(store.get_key("theme"@), "default"@),
        text_setting(store.get_key("font"@), "inter"@),
        flag_setting(store.get_key("auto_deploy"@), false),
        store.get_key("game_path"@) is Some || store.get_key("deploy_mode"@) is Some
            || store.get_key("active_profile"@) is Some || store.get_key("theme"@) is Some
            || store.get_key("font"@) is Some || store.get_key("auto_deploy"@) is Some,
    )
}

/// Loading the settings keeps what the store says: each text setting
/// (`deploy_mode`, `active_profile`, `theme`, `font`) is the string stored
/// under its key, and each flag (`global_disable`, `auto_deploy`) the
/// boolean stored under its key; the defaults (`auto`, `default`,
/// `default`, `inter`, off) are used only where the key is missing or holds
/// another kind of value. The game path is the stored string, if any.
pub proof fn law_settings_loaded(store: Json)
    ensures
        ({
            let c = config_from_store_spec(store);
            &&& (store.get_key("game_path"@) matches Some(Json::Str(s)) ==> c.0 == Some(s))
            &&& (!(store.get_key("game_path"@) matches Some(Json::Str(_))) ==> c.0 is None)
            &&& (store.get_key("deploy_mode"@) matches Some(Json::Str(s)) ==> c.1 == s)
            &&& (!(store.get_key("deploy_mode"@) matches Some(Json::Str(_))) ==> c.1 == "auto"@)
            &&& (store.get_key("active_profile"@) matches Some(Json::Str(s)) ==> c.2 == s)
            &&& (!(store.get_key("active_profile"@) matches Some(Json::Str(_))) ==> c.2 == "default"@)
            &&& (store.get_key("global_disable"@) matches Some(Json::Bool(b)) ==> c.3 == b)
            &&& (!(store.get_key("global_disable"@) matches Some(Json::Bool(_))) ==> !c.3)
            &&& (store.get_key("theme"@) matches Some(Json::Str(s)) ==> c.4 == s)
            &&& (!(store.get_key("theme"@) matches Some(Json::Str(_))) ==> c.4 == "default"@)
            &&& (store.get_key("font"@) matches Some(Json::Str(s)) ==> c.5 == s)
            &&& (!(store.get_key("font"@) matches Some(Json::Str(_))) ==> c.5 == "inter"@)
            &&& (store.get_key("auto_deploy"@) matches Some(Json::Bool(b)) ==> c.6 == b)
            &&& (!(store.get_key("auto_deploy"@) matches Some(Json::Bool(_))) ==> !c.6)
        }),
{
}

/// The model of a configuration, in the order of `config_from_store_spec`.
pub open spec fn config_model(c: AppConfig) -> (Option<Seq<char>>, Seq<char>, Seq<char>, bool, Seq<char>, Seq<char>, bool) {
    (
        match c.game_path {
            Some(s) => Some(s@),
            None => None,
        },
        c.deploy_mode@,
        c.active_profile@,
        c.global_disable,
        c.theme@,
        c.font@,
        c.auto_deploy,
    )
}

fn text_or(v: Option<&JsonValue>, dflt: String) -> (r: String)
    ensures
        r@ == text_setting(crate::json::opt_model(v), dflt@),
{
    match v {
        Some(JsonValue::Str(s)) => s.clone(),
        _ => dflt,
    }
}

fn flag_or(v: Option<&JsonValue>, dflt: bool) -> (r: bool)
    ensures
        r == flag_setting(crate::json::opt_model(v), dflt),
{
    match v {
        Some(JsonValue::Bool(b)) => *b,
        _ => dflt,
    }
}

/// Reads the settings store (see `config_from_store_spec`).
pub fn config_from_store(store: &JsonValue) -> (r: (AppConfig, bool))
    ensures
        ({
            let m = config_from_store_spec(store.model());
            &&& config_model(r.0) == (m.0, m.1, m.2, m.3, m.4, m.5, m.6)
            &&& r.1 == m.7
        }),
{
    let d = AppConfig::default();
    let game_path = match store.get("game_path") {
        Some(JsonValue::Str(s)) => Some(s.clone()),
        _ => None,
    };
    let cfg = AppConfig {
        game_path,
        deploy_mode: text_or(store.get("deploy_mode"), d.deploy_mode),
        active_profile: text_or(store.get("active_profile"), d.active_profile),
        global_disable: flag_or(store.get("global_disable"), d.global_disable),
        theme: text_or(store.get("theme"), d.theme),
        font: text_or(store.get("font"), d.font),
        auto_deploy: flag_or(store.get("auto_deploy"), d.auto_deploy),
    };
    let any = store.get("game_path").is_some() || store.get("deploy_mode").is_some()
        || store.get("active_profile").is_some() || store.get("theme").is_some() || store.get(
        "font",
    ).is_some() || store.get("auto_deploy").is_some();
    (cfg, any)
}

} // verus!
