//! Importing a base into a loaded save: the payload text, its shape, the
//! replacement base, and the slot it replaces.
use vstd::prelude::*;
use crate::json::{
    Json, JsonNumber, JsonValue, Seg, find_in, find_key_path, get_at, get_at_exec, set_at,
    set_at_from, obj_insert, obj_insert_exec, Step, steps, lemma_arr_entry, keys_unique,
    law_write_below_found, lemma_get_concat, lemma_set_same, key_index, lemma_key_index_from, get_at_from,
};
use crate::clock::now_unix;
use crate::text::{
    chars_of, concat, string_from_chars, trim, trim_start, trim_start_idx, trim_bounds,
    lemma_trim_start_idx, char_is_ws, is_ws,
};
use crate::bases::{objects_count_spec, str_or, base_objects_count};
use crate::names::{safe_name, safe_name_spec};

verus! {

// ---------------------------------------------------------------------------
// Payload text
// ---------------------------------------------------------------------------

/// Drops leading commas, each with the whitespace after it (the text of an
/// `.nmsbase` file starts with `,`).
pub open spec fn strip_commas(s: Seq<char>) -> Seq<char>
    decreases s.len(),
{
    if s.len() > 0 && s[0] == ',' {
        proof {
            lemma_trim_start_idx(s.drop_first(), 0);
        }
        strip_commas(trim_start(s.drop_first()))
    } else {
        s
    }
}

/// The payload text as it is parsed: trimmed, leading commas dropped.
pub open spec fn import_text_spec(text: Seq<char>) -> Seq<char> {
    strip_commas(trim(text))
}

proof fn lemma_trim_start_suffix(s: Seq<char>, i: int, j: int)
    requires
        0 <= i <= j <= s.len(),
    ensures
        trim_start_idx(s.subrange(i, s.len() as int), j - i) + i == trim_start_idx(s, j),
    decreases s.len() - j,
{
    if j < s.len() && is_ws(s[j]) {
        lemma_trim_start_suffix(s, i, j + 1);
    }
}

/// The payload text as it is parsed (see `import_text_spec`).
pub fn import_text(text: &str) -> (r: String)
    ensures
        r@ == import_text_spec(text@),
{
    let v = chars_of(text);
    let (lo, hi) = trim_bounds(&v);
    let ghost w = v@.subrange(0, hi as int);
    let mut i: usize = lo;
    assert(trim(text@) =~= w.subrange(lo as int, hi as int));
    while i < hi && v[i] == ','
        invariant
            lo <= i <= hi <= v@.len(),
            w == v@.subrange(0, hi as int),
            w.len() == hi,
            import_text_spec(text@) == strip_commas(w.subrange(i as int, hi as int)),
        decreases hi - i,
    {
        let ghost cur = w.subrange(i as int, hi as int);
        let start: usize = i + 1;
        assert(cur.drop_first() =~= w.subrange(start as int, hi as int));
        i = start;
        proof {
            lemma_trim_start_idx(w, i as int);
        }
        while i < hi && char_is_ws(v[i])
            invariant
                start <= i <= hi <= v@.len(),
                w == v@.subrange(0, hi as int),
                w.len() == hi,
                trim_start_idx(w, start as int) == trim_start_idx(w, i as int),
            decreases hi - i,
        {
            i = i + 1;
        }
        proof {
            lemma_trim_start_suffix(w, start as int, start as int);
            lemma_trim_start_idx(w.subrange(start as int, hi as int), 0);
            assert(trim_start(cur.drop_first()) =~= w.subrange(i as int, hi as int));
        }
    }
    let out = vstd::slice::slice_subrange(v.as_slice(), i, hi);
    assert(out@ =~= w.subrange(i as int, hi as int));
    string_from_chars(out)
}

// ---------------------------------------------------------------------------
// Payload shape
// ---------------------------------------------------------------------------

/// `v` is an object with key `k`.
pub open spec fn has_key(v: Json, k: Seq<char>) -> bool {
    v.get_key(k) is Some
}

/// What a parsed payload stands for: an array is a list of placed objects
/// (to go into the target slot's `Objects`); any other value is a whole base.
/// A non-empty list whose first element is not an object (no `ObjectID`)
/// stands for its first element; a lone object with `ObjectID` and no
/// `Objects` is a one-object list.
pub open spec fn normalize_spec(v: Json) -> Result<Json, Seq<char>> {
    match v {
        Json::Arr(xs) => if xs.len() == 0 {
            Err("JSON list is empty"@)
        } else if has_key(xs[0], "ObjectID"@) {
            Ok(v)
        } else {
            Ok(xs[0])
        },
        _ => if has_key(v, "ObjectID"@) && !has_key(v, "Objects"@) {
            Ok(Json::Arr(seq![v]))
        } else if !has_key(v, "Objects"@) {
            Err("base JSON missing 'Objects' key"@)
        } else {
            Ok(v)
        },
    }
}

/// A list of placed objects is taken as it is: the objects an exported
/// `.nmsbase` text holds, once read as a list, import back as that very list
/// of objects.
pub proof fn law_objects_list_accepted(objs: Seq<Json>)
    requires
        objs.len() > 0,
        forall|i: int| 0 <= i < objs.len() ==> has_key(#[trigger] objs[i], "ObjectID"@),
    ensures
        normalize_spec(Json::Arr(objs)) == Ok::<Json, Seq<char>>(Json::Arr(objs)),
{
    assert(has_key(objs[0], "ObjectID"@));
}

/// Classifies a parsed payload (see `normalize_spec`).
pub fn normalize_import_value(v: JsonValue) -> (r: Result<JsonValue, String>)
    ensures
        match r {
            Ok(x) => normalize_spec(v.model()) == Ok::<Json, Seq<char>>(x.model()),
            Err(e) => normalize_spec(v.model()) == Err::<Json, Seq<char>>(e@),
        },
{
    let ghost vm = v.model();
    match v {
        JsonValue::Array(xs) => {
            if xs.len() == 0 {
                return Err("JSON list is empty".to_owned());
            }
            proof {
                lemma_arr_entry(&xs, 0);
            }
            if xs[0].get("ObjectID").is_some() {
                return Ok(JsonValue::Array(xs));
            }
            let mut xs = xs;
            let first = xs.remove(0);
            assert(first.model() == vm->Arr_0[0]);
            Ok(first)
        },
        _ => {
            let has_id = v.get("ObjectID").is_some();
            let has_objects = v.get("Objects").is_some();
            if has_id && !has_objects {
                let mut xs: Vec<JsonValue> = Vec::new();
                xs.push(v);
                let r = JsonValue::Array(xs);
                proof {
                    lemma_arr_entry(&xs, 0);
                    assert(r.model()->Arr_0 =~= seq![vm]);
                }
                Ok(r)
            } else if !has_objects {
                Err("base JSON missing 'Objects' key".to_owned())
            } else {
                Ok(v)
            }
        },
    }
}

// ---------------------------------------------------------------------------
// Replacement base
// ---------------------------------------------------------------------------

/// `value[k] = x` is defined on an object and on `null` (which becomes an
/// object); on any other value it panics.
pub open spec fn settable(v: Json) -> bool {
    v is Null || v is Obj
}

/// `value[k] = x` on a settable value.
pub open spec fn index_set(v: Json, k: Seq<char>, x: Json) -> Json {
    match v {
        Json::Obj(es) => Json::Obj(obj_insert(es, k, x)),
        _ => Json::Obj(obj_insert(Seq::empty(), k, x)),
    }
}

fn index_set_exec(v: JsonValue, k: String, x: JsonValue) -> (r: JsonValue)
    requires
        settable(v.model()),
    ensures
        r.model() == index_set(v.model(), k@, x.model()),
{
    match v {
        JsonValue::Object(es) => {
            let mut es = es;
            obj_insert_exec(&mut es, k, x);
            JsonValue::Object(es)
        },
        _ => {
            let mut es: Vec<(String, JsonValue)> = Vec::new();
            assert(JsonValue::Object(es).model()->Obj_0 =~= Seq::<(Seq<char>, Json)>::empty());
            obj_insert_exec(&mut es, k, x);
            JsonValue::Object(es)
        },
    }
}

/// The JSON number of a timestamp.
pub open spec fn ts_model(ts: i64) -> Json {
    if ts < 0 {
        Json::Num(JsonNumber::NegInt(ts))
    } else {
        Json::Num(JsonNumber::PosInt(ts as u64))
    }
}

/// A base needs the target's name when it has no non-empty string `Name`.
pub open spec fn name_missing(v: Json) -> bool {
    match v.get_key("Name"@) {
        Some(n) => match n.as_str() {
            Some(s) => s.len() == 0,
            None => true,
        },
        None => true,
    }
}

/// The base that goes into the slot: a list of objects replaces the
/// target's `Objects` and stamps `LastUpdateTimestamp`; a whole base is
/// taken as it is. Either way a base without a name keeps the target's.
pub open spec fn replacement(target: Json, data: Json, ts: i64) -> Json {
    let nb = match data {
        Json::Arr(arr) => index_set(
            index_set(target, "Objects"@, Json::Arr(arr)),
            "LastUpdateTimestamp"@,
            ts_model(ts),
        ),
        _ => data,
    };
    if name_missing(nb) {
        match target.get_key("Name"@) {
            Some(n) => index_set(nb, "Name"@, n),
            None => nb,
        }
    } else {
        nb
    }
}

/// The replacement is defined (no step of it indexes into a value that is
/// neither an object nor `null`).
pub open spec fn replacement_defined(target: Json, data: Json) -> bool {
    &&& data is Arr ==> settable(target)
    &&& (!(data is Arr) && name_missing(data) && target.get_key("Name"@) is Some) ==> settable(data)
}

/// Whether the replacement is defined (see `replacement_defined`).
pub fn can_replace(target: &JsonValue, data: &JsonValue) -> (r: bool)
    ensures
        r == replacement_defined(target.model(), data.model()),
{
    let settable_target = match target {
        JsonValue::Null => true,
        JsonValue::Object(_) => true,
        _ => false,
    };
    match data {
        JsonValue::Array(_) => settable_target,
        JsonValue::Null => true,
        JsonValue::Object(_) => true,
        _ => !(data_name_missing(data) && target.get("Name").is_some()),
    }
}

fn data_name_missing(v: &JsonValue) -> (r: bool)
    ensures
        r == name_missing(v.model()),
{
    match v.get("Name") {
        Some(n) => match n.as_str() {
            Some(s) => s.as_str().is_empty(),
            None => true,
        },
        None => true,
    }
}

fn ts_value(ts: i64) -> (r: JsonValue)
    ensures
        r.model() == ts_model(ts),
{
    if ts < 0 {
        JsonValue::Number(JsonNumber::NegInt(ts))
    } else {
        JsonValue::Number(JsonNumber::PosInt(ts as u64))
    }
}

/// Builds the base that replaces `target` (see `replacement`).
pub fn build_replacement(target: &JsonValue, data: JsonValue, ts: i64) -> (r: JsonValue)
    requires
        replacement_defined(target.model(), data.model()),
    ensures
        r.model() == replacement(target.model(), data.model(), ts),
{
    let nb = match data {
        JsonValue::Array(arr) => {
            let with_objects = index_set_exec(target.deep_clone(), "Objects".to_owned(), JsonValue::Array(arr));
            index_set_exec(with_objects, "LastUpdateTimestamp".to_owned(), ts_value(ts))
        },
        _ => data,
    };
    if data_name_missing(&nb) {
        match target.get("Name") {
            Some(n) => index_set_exec(nb, "Name".to_owned(), n.deep_clone()),
            None => nb,
        }
    } else {
        nb
    }
}

// ---------------------------------------------------------------------------
// Into the save
// ---------------------------------------------------------------------------

/// The base list of a save and the path to it, or why there is none.
pub open spec fn base_list(save: Json) -> Result<(Seq<Step>, Seq<Json>), Seq<char>> {
    match find_in(save, "PersistentPlayerBases"@) {
        None => Err("bases not found"@),
        Some(p) => match get_at(save, p) {
            Some(v) => match v.as_arr() {
                Some(xs) => Ok((p, xs)),
                None => Err("bases not an array"@),
            },
            None => Err("bases not an array"@),
        },
    }
}

/// The base in slot `idx`, or why there is none.
pub open spec fn slot(save: Json, idx: int) -> Result<Json, Seq<char>> {
    match base_list(save) {
        Ok((_, xs)) => if 0 <= idx < xs.len() {
            Ok(xs[idx])
        } else {
            Err("base index out of range"@)
        },
        Err(e) => Err(e),
    }
}

/// The save after importing `data` into slot `idx`, with the base it
/// replaced.
pub open spec fn import_spec(save: Json, idx: int, data: Json, ts: i64) -> Result<(Json, Json), Seq<char>> {
    match base_list(save) {
        Ok((p, xs)) => if 0 <= idx < xs.len() {
            Ok((set_at_from(save, p.push(Step::Idx(idx)), 0, replacement(xs[idx], data, ts)), xs[idx]))
        } else {
            Err("base index out of range"@)
        },
        Err(e) => Err(e),
    }
}

/// Importing into slot `idx` is defined: where the slot exists, the
/// replacement is.
pub open spec fn import_defined(save: Json, idx: int, data: Json) -> bool {
    match slot(save, idx) {
        Ok(t) => replacement_defined(t, data),
        Err(_) => true,
    }
}

/// An import is read back: after importing `data` into slot `idx` of a
/// parsed save, slot `idx` of the new save holds the base built from the old
/// one, and every other slot holds what it held before.
pub proof fn law_import_reads_back(save: Json, idx: int, data: Json, ts: i64, j: int)
    requires
        keys_unique(save),
    ensures
        import_spec(save, idx, data, ts) matches Ok((s2, t)) ==> {
            &&& slot(s2, idx) == Ok::<Json, Seq<char>>(replacement(t, data, ts))
            &&& j != idx ==> slot(s2, j) == slot(save, j)
        },
{
    match base_list(save) {
        Ok((p, xs)) => if 0 <= idx < xs.len() {
            let r = replacement(xs[idx], data, ts);
            let q = seq![Step::Idx(idx)];
            assert(p.push(Step::Idx(idx)) =~= p + q);
            law_write_below_found(save, "PersistentPlayerBases"@, q, r);
            assert(get_at(save, p) == Some(Json::Arr(xs)));
            assert(q[0] == Step::Idx(idx));
            assert(set_at_from(xs[idx], q, 1, r) == r);
            assert(set_at_from(Json::Arr(xs), q, 0, r) == Json::Arr(xs.update(idx, r)));
        },
        Err(_) => {},
    }
}

proof fn lemma_replacement_of_itself(b: Json, ts: i64)
    requires
        b is Obj,
    ensures
        replacement(b, b, ts) == b,
{
    if name_missing(b) {
        match b.get_key("Name"@) {
            Some(n) => {
                let es = b->Obj_0;
                let j = key_index(es, "Name"@)->Some_0;
                lemma_key_index_from(es, "Name"@, 0);
                assert(es.update(j, ("Name"@, n)) =~= es);
            },
            None => {},
        }
    }
}

/// Exporting a base and importing it back into its slot gives the save
/// back: for a parsed save whose slot `idx` holds an object, importing that
/// object into slot `idx` leaves the save as it was, whatever the time.
pub proof fn law_export_import_roundtrip(save: Json, idx: int, ts: i64)
    requires
        keys_unique(save),
    ensures
        slot(save, idx) matches Ok(b) ==> (b is Obj ==> import_spec(save, idx, b, ts) == Ok::<
            (Json, Json),
            Seq<char>,
        >((save, b))),
{
    match base_list(save) {
        Ok((p, xs)) => if 0 <= idx < xs.len() && xs[idx] is Obj {
            let b = xs[idx];
            lemma_replacement_of_itself(b, ts);
            let q = seq![Step::Idx(idx)];
            let full = p.push(Step::Idx(idx));
            assert(full =~= p + q);
            assert(get_at(save, p) == Some(Json::Arr(xs)));
            lemma_get_concat(save, p, q, 0);
            assert(q[0] == Step::Idx(idx));
            assert(get_at_from(b, q, 1) == Some(b));
            assert(get_at_from(Json::Arr(xs), q, 0) == Some(b));
            lemma_set_same(save, full, 0);
        },
        Err(_) => {},
    }
}

/// A base imported into a save.
#[derive(Debug, PartialEq)]
pub struct ImportedBase {
    /// The save with the slot replaced.
    pub save: JsonValue,
    /// The base that was in the slot.
    pub target: JsonValue,
    /// Objects of the new base.
    pub objects: usize,
}

/// Whether importing into slot `idx` is defined (see `import_defined`).
pub fn can_import(save: &JsonValue, idx: usize, data: &JsonValue) -> (r: bool)
    ensures
        r == import_defined(save.model(), idx as int, data.model()),
{
    match find_key_path(save, "PersistentPlayerBases") {
        None => true,
        Some(p) => match get_at_exec(save, p.as_slice()) {
            Some(v) => match v.as_array() {
                Some(xs) => if idx < xs.len() {
                    proof {
                        lemma_arr_entry(xs, idx as int);
                    }
                    can_replace(&xs[idx], data)
                } else {
                    true
                },
                None => true,
            },
            None => true,
        },
    }
}

/// Replaces slot `idx` of the save's base list by the base built from
/// `data` at time `ts` (see `import_spec`).
pub fn import_base_at(save: JsonValue, idx: usize, data: JsonValue, ts: i64) -> (r: Result<ImportedBase, String>)
    requires
        import_defined(save.model(), idx as int, data.model()),
    ensures
        match r {
            Ok(ib) => import_spec(save.model(), idx as int, data.model(), ts) == Ok::<(Json, Json), Seq<char>>((ib.save.model(), ib.target.model()))
                && ib.objects as nat == objects_count_spec(replacement(ib.target.model(), data.model(), ts)),
            Err(e) => import_spec(save.model(), idx as int, data.model(), ts) == Err::<(Json, Json), Seq<char>>(e@),
        },
{
    let p = match find_key_path(&save, "PersistentPlayerBases") {
        Some(p) => p,
        None => return Err("bases not found".to_owned()),
    };
    let target = match get_at_exec(&save, p.as_slice()) {
        Some(v) => match v.as_array() {
            Some(xs) => if idx < xs.len() {
                proof {
                    lemma_arr_entry(xs, idx as int);
                }
                xs[idx].deep_clone()
            } else {
                return Err("base index out of range".to_owned());
            },
            None => return Err("bases not an array".to_owned()),
        },
        None => return Err("bases not an array".to_owned()),
    };
    let new_base = build_replacement(&target, data, ts);
    let objects = base_objects_count(&new_base);
    let mut full = p;
    let ghost p0 = full@;
    full.push(Seg::Idx(idx));
    assert(steps(full@) =~= steps(p0).push(Step::Idx(idx as int)));
    let save = set_at(save, full.as_slice(), new_base);
    Ok(ImportedBase { save, target, objects })
}

/// Imports `data` into slot `idx`, stamping the current time. Whatever the
/// clock reads, the result is `import_spec` at some time, with the object
/// count of the new base at that time; the errors do not depend on it.
pub fn import_base_now(save: JsonValue, idx: usize, data: JsonValue) -> (r: Result<ImportedBase, String>)
    requires
        import_defined(save.model(), idx as int, data.model()),
    ensures
        match r {
            Ok(ib) => exists|ts: i64|
                import_spec(save.model(), idx as int, data.model(), ts) == Ok::<(Json, Json), Seq<char>>((ib.save.model(), ib.target.model()))
                && ib.objects as nat == objects_count_spec(replacement(ib.target.model(), data.model(), ts)),
            Err(e) => forall|ts: i64| import_spec(save.model(), idx as int, data.model(), ts) == Err::<(Json, Json), Seq<char>>(e@),
        },
{
    let ts = now_unix();
    let r = import_base_at(save, idx, data, ts);
    r
}

/// File name for the backup of the replaced base: its `Name` (or `base`)
/// made file-safe, `_backup_`, the time stamp, `.json`.
pub fn import_backup_name(target: &JsonValue, stamp: &str) -> (r: String)
    ensures
        r@ == safe_name_spec(str_or(target.model().get_key("Name"@), "base"@)) + "_backup_"@ + stamp@
            + ".json"@,
{
    let raw: &str = match target.get("Name") {
        Some(n) => match n.as_str() {
            Some(s) => s.as_str(),
            None => "base",
        },
        None => "base",
    };
    let a = safe_name(raw);
    let b = concat(a.as_str(), "_backup_");
    let c = concat(b.as_str(), stamp);
    concat(c.as_str(), ".json")
}

} // verus!
