//! Exporting a base: which base, the file it goes to, the `.nmsbase` text,
//! and the names of the copies kept of files it replaces.
use vstd::prelude::*;
use crate::text::{concat};
use crate::json::{Json, JsonValue, find_key_path, get_at_exec, lemma_arr_entry, models};
use crate::bases::{base_display_name, display_name_spec, ship_ownership_list, ships_spec};
use crate::names::{safe_name, safe_name_spec};
use crate::payload::{slot, import_text_spec, strip_commas};
use crate::names::lemma_trim_ends;
use crate::text::{trim, trim_start, trim_start_idx, is_ws};
use crate::paths::{join, join_spec, default_ext, with_default_ext, shellexpand, expand_spec, file_name_of, file_name_spec, name_stem, stem_spec};

verus! {

/// A base of the save with the names it is exported under.
#[derive(Debug, PartialEq)]
pub struct BaseExport {
    /// A copy of the base.
    pub base: JsonValue,
    /// Its display name made file-safe.
    pub safe: String,
    /// Its display name.
    pub display: String,
}

/// Takes base `idx` of the save for export: the base, the file-safe form of
/// its display name, and the display name.
pub fn get_base(save: &JsonValue, idx: usize) -> (r: Result<BaseExport, String>)
    ensures
        match r {
            Ok(b) => slot(save.model(), idx as int) == Ok::<Json, Seq<char>>(b.base.model())
                && b.display@ == display_name_spec(b.base.model(), idx as nat, ships_spec(save.model()))
                && b.safe@ == safe_name_spec(b.display@),
            Err(e) => slot(save.model(), idx as int) == Err::<Json, Seq<char>>(e@),
        },
{
    let p = match find_key_path(save, "PersistentPlayerBases") {
        Some(p) => p,
        None => return Err("bases not found".to_owned()),
    };
    let base = match get_at_exec(save, p.as_slice()) {
        Some(v) => match v.as_array() {
            Some(xs) => if idx < xs.len() {
                proof {
                    lemma_arr_entry(xs, idx as int);
                }
                xs[idx].deep_clone()
            } else {
                return Err("base index out of range".to_owned());
            },
            None => return Err("bases not an array".to_owned()),
        },
        None => return Err("bases not an array".to_owned()),
    };
    let ships = ship_ownership_list(save);
    let ghost sm = match ships {
        Some(xs) => Some(models(xs@)),
        None => None,
    };
    assert(sm == ships_spec(save.model()));
    let display = base_display_name(&base, idx, ships);
    let safe = safe_name(display.as_str());
    Ok(BaseExport { base, safe, display })
}

/// The placed objects of a base (its `Objects` array, or none).
pub open spec fn objects_of(base: Json) -> Seq<Json> {
    match base.get_key("Objects"@) {
        Some(Json::Arr(xs)) => xs,
        _ => Seq::empty(),
    }
}

/// Copies the placed objects of a base (see `objects_of`).
pub fn base_objects(base: &JsonValue) -> (r: Vec<JsonValue>)
    ensures
        models(r@) == objects_of(base.model()),
{
    match base.get("Objects") {
        Some(JsonValue::Array(xs)) => {
            let mut out: Vec<JsonValue> = Vec::new();
            let mut i: usize = 0;
            while i < xs.len()
                invariant
                    i <= xs@.len(),
                    out@.len() == i,
                    forall|j: int| 0 <= j < i ==> #[trigger] out@[j].model() == xs@[j].model(),
                decreases xs@.len() - i,
            {
                out.push(xs[i].deep_clone());
                i = i + 1;
            }
            proof {
                assert forall|j: int| 0 <= j < xs@.len() implies #[trigger] JsonValue::Array(*xs).model()->Arr_0[j] == xs@[j].model() by {
                    lemma_arr_entry(xs, j);
                }
            }
            assert(models(out@) =~= JsonValue::Array(*xs).model()->Arr_0);
            out
        },
        _ => Vec::new(),
    }
}

/// `parts` joined with `sep`.
pub open spec fn join_with(parts: Seq<Seq<char>>, sep: Seq<char>) -> Seq<char>
    decreases parts.len(),
{
    if parts.len() == 0 {
        Seq::empty()
    } else if parts.len() == 1 {
        parts[0]
    } else {
        join_with(parts.drop_last(), sep) + sep + parts.last()
    }
}

/// The `.nmsbase` text of a base whose objects print as `parts`: empty for
/// no objects, else `,` and a line break before the objects, which are
/// separated by `,` and a line break.
pub open spec fn nmsbase_spec(parts: Seq<Seq<char>>) -> Seq<char> {
    if parts.len() == 0 {
        Seq::empty()
    } else {
        ",\n"@ + join_with(parts, ",\n"@)
    }
}

proof fn lemma_join_with_ends(parts: Seq<Seq<char>>, sep: Seq<char>)
    requires
        parts.len() > 0,
        parts[0].len() > 0,
        parts.last().len() > 0,
    ensures
        join_with(parts, sep).len() > 0,
        join_with(parts, sep)[0] == parts[0][0],
        join_with(parts, sep).last() == parts.last().last(),
    decreases parts.len(),
{
    if parts.len() > 1 {
        let rest = parts.drop_last();
        assert(rest[0] == parts[0]);
        lemma_join_with_first(rest, sep);
        let j = join_with(rest, sep);
        assert((j + sep + parts.last())[0] == j[0]);
    }
}

proof fn lemma_join_with_first(parts: Seq<Seq<char>>, sep: Seq<char>)
    requires
        parts.len() > 0,
        parts[0].len() > 0,
    ensures
        join_with(parts, sep).len() > 0,
        join_with(parts, sep)[0] == parts[0][0],
    decreases parts.len(),
{
    if parts.len() > 1 {
        let rest = parts.drop_last();
        assert(rest[0] == parts[0]);
        lemma_join_with_first(rest, sep);
        let j = join_with(rest, sep);
        assert((j + sep + parts.last())[0] == j[0]);
    }
}

/// An exported `.nmsbase` text reads back as its objects: the text the
/// import takes from the `.nmsbase` text of objects that print as `parts`
/// (each a JSON object, so starting with `{` and ending with `}`) is those
/// printed objects separated by `,` and a line break, ready to be read as
/// a list.
pub proof fn law_nmsbase_reads_back(parts: Seq<Seq<char>>)
    requires
        parts.len() > 0,
        forall|i: int| 0 <= i < parts.len() ==> (#[trigger] parts[i]).len() > 0 && parts[i][0] == '{'
            && parts[i].last() == '}',
    ensures
        import_text_spec(nmsbase_spec(parts)) == join_with(parts, ",\n"@),
{
    reveal_strlit(",\n");
    let sep: Seq<char> = ",\n"@;
    let j = join_with(parts, sep);
    assert(parts[0].len() > 0 && parts[0][0] == '{');
    assert(parts[parts.len() - 1].len() > 0 && parts[parts.len() - 1].last() == '}');
    lemma_join_with_ends(parts, sep);
    let t = sep + j;
    assert(t == nmsbase_spec(parts));
    assert(t[0] == ',');
    assert(t.last() == '}');
    assert(!is_ws(',') && !is_ws('}') && !is_ws('{') && is_ws('\n'));
    lemma_trim_ends(t);
    assert(trim(t) == t);
    let rest = t.drop_first();
    assert(rest =~= seq!['\n'] + j);
    assert(rest[0] == '\n' && rest[1] == '{');
    assert(trim_start_idx(rest, 1) == 1);
    assert(trim_start_idx(rest, 0) == 1);
    assert(trim_start(rest) =~= j);
    assert(j[0] != ',');
    assert(strip_commas(j) == j);
}

/// Frames the printed objects of a base as `.nmsbase` text (see
/// `nmsbase_spec`).
pub fn nmsbase_frame(parts: &Vec<String>) -> (r: String)
    ensures
        r@ == nmsbase_spec(crate::deploy::views(parts@)),
{
    let ghost ps = crate::deploy::views(parts@);
    proof {
        reveal_strlit("");
    }
    if parts.len() == 0 {
        return "".to_owned();
    }
    let mut acc = parts[0].clone();
    let mut i: usize = 1;
    assert(ps.take(1).drop_last().len() == 0);
    assert(join_with(ps.take(1), ",\n"@) == ps[0]);
    while i < parts.len()
        invariant
            1 <= i <= parts@.len(),
            ps == crate::deploy::views(parts@),
            acc@ == join_with(ps.take(i as int), ",\n"@),
        decreases parts@.len() - i,
    {
        let a = concat(acc.as_str(), ",\n");
        acc = concat(a.as_str(), parts[i].as_str());
        proof {
            assert(ps.take(i + 1).drop_last() =~= ps.take(i as int));
            assert(ps.take(i + 1).last() == parts@[i as int]@);
        }
        i = i + 1;
    }
    assert(ps.take(parts@.len() as int) =~= ps);
    concat(",\n", acc.as_str())
}

/// The file an export goes to: the path given (home expanded, extension
/// `ext` added when it has none), else `<safe>.<ext>` in the default
/// folder.
pub open spec fn export_target_spec(out_path: Option<Seq<char>>, home: Option<Seq<char>>, default_dir: Seq<char>, safe: Seq<char>, ext: Seq<char>) -> Seq<char> {
    match out_path {
        Some(p) => with_default_ext(expand_spec(p, home), ext),
        None => join_spec(default_dir, safe + "."@ + ext),
    }
}

/// The file an export goes to (see `export_target_spec`).
pub fn export_target(out_path: Option<&str>, home: Option<&str>, default_dir: &str, safe: &str, ext: &str) -> (r: String)
    ensures
        r@ == export_target_spec(
            match out_path {
                Some(p) => Some(p@),
                None => None,
            },
            match home {
                Some(h) => Some(h@),
                None => None,
            },
            default_dir@,
            safe@,
            ext@,
        ),
{
    match out_path {
        Some(p) => {
            let e = shellexpand(p, home);
            default_ext(e.as_str(), ext)
        },
        None => {
            let a = concat(safe, ".");
            let f = concat(a.as_str(), ext);
            join(default_dir, f.as_str())
        },
    }
}

/// The copy kept of a JSON export it replaces: `<safe>_backup_<stamp>.json`.
pub fn export_backup_name(safe: &str, stamp: &str) -> (r: String)
    ensures
        r@ == safe@ + "_backup_"@ + stamp@ + ".json"@,
{
    let a = concat(safe, "_backup_");
    let b = concat(a.as_str(), stamp);
    concat(b.as_str(), ".json")
}

/// The copy kept of an `.nmsbase` export it replaces:
/// `<safe>_<stem of the target>_backup_<stamp>.nmsbase`.
pub fn nmsbase_backup_name(safe: &str, dest: &str, stamp: &str) -> (r: String)
    ensures
        r@ == safe@ + "_"@ + match file_name_spec(dest@) {
            Some(n) => stem_spec(n),
            None => Seq::empty(),
        } + "_backup_"@ + stamp@ + ".nmsbase"@,
{
    proof {
        reveal_strlit("");
    }
    let stem = match file_name_of(dest) {
        Some(n) => name_stem(n.as_str()),
        None => "".to_owned(),
    };
    let a = concat(safe, "_");
    let b = concat(a.as_str(), stem.as_str());
    let c = concat(b.as_str(), "_backup_");
    let d = concat(c.as_str(), stamp);
    concat(d.as_str(), ".nmsbase")
}

} // verus!
