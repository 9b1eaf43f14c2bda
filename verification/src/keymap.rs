//! Key renaming between the obfuscated keys of a save and readable names.
//!
//! A mapping is a list of `Key`/`Value` pairs. Looking a name up in it finds
//! the last pair with that name (later pairs override earlier ones).
//! Renaming walks the document: every object key found in the table is
//! replaced, all others are kept, and each renamed object is rebuilt as a
//! key-sorted map, so two keys renamed to the same name collapse into one
//! (the later in the object's order wins).
use vstd::prelude::*;
use vstd::hash_map::StringHashMap;
use crate::json::{
    Json, JsonValue, lemma_arr_entry, lemma_obj_entry, obj_insert, obj_insert_exec, key_index,
    insert_pos_from, lemma_key_index_from, lemma_insert_pos_from,
};
use crate::text::{seq_lt, lemma_seq_lt_order};

verus! {

/// One pair of the mapping table.
#[derive(Debug, PartialEq)]
pub struct MappingEntry {
    pub key: String,
    pub value: String,
}

/// The table built from `pairs`: later pairs override earlier ones.
pub open spec fn table_of(pairs: Seq<(Seq<char>, Seq<char>)>) -> Map<Seq<char>, Seq<char>>
    decreases pairs.len(),
{
    if pairs.len() == 0 {
        Map::empty()
    } else {
        table_of(pairs.drop_last()).insert(pairs.last().0, pairs.last().1)
    }
}

/// The `(Key, Value)` pairs of a mapping.
pub open spec fn forward_pairs(m: Seq<MappingEntry>) -> Seq<(Seq<char>, Seq<char>)> {
    Seq::new(m.len(), |i: int| (m[i].key@, m[i].value@))
}

/// The `(Value, Key)` pairs of a mapping.
pub open spec fn backward_pairs(m: Seq<MappingEntry>) -> Seq<(Seq<char>, Seq<char>)> {
    Seq::new(m.len(), |i: int| (m[i].value@, m[i].key@))
}

/// The new name of key `k`.
pub open spec fn rename(k: Seq<char>, t: Map<Seq<char>, Seq<char>>) -> Seq<char> {
    if t.contains_key(k) {
        t[k]
    } else {
        k
    }
}

/// `v` with every object key renamed through `t`.
pub open spec fn map_json(v: Json, t: Map<Seq<char>, Seq<char>>) -> Json
    decreases v, 0int,
{
    match v {
        Json::Arr(xs) => Json::Arr(map_elems(xs, t, xs.len() as int)),
        Json::Obj(es) => Json::Obj(map_entries(es, t, es.len() as int)),
        _ => v,
    }
}

/// The first `n` elements of `xs`, renamed.
pub open spec fn map_elems(xs: Seq<Json>, t: Map<Seq<char>, Seq<char>>, n: int) -> Seq<Json>
    decreases xs, n,
{
    if n <= 0 || n > xs.len() {
        Seq::empty()
    } else {
        map_elems(xs, t, n - 1).push(map_json(xs[n - 1], t))
    }
}

/// The sorted map built by inserting the first `n` entries of `es`, renamed,
/// in order.
pub open spec fn map_entries(es: Seq<(Seq<char>, Json)>, t: Map<Seq<char>, Seq<char>>, n: int) -> Seq<
    (Seq<char>, Json),
>
    decreases es, n,
{
    if n <= 0 || n > es.len() {
        Seq::empty()
    } else {
        obj_insert(map_entries(es, t, n - 1), rename(es[n - 1].0, t), map_json(es[n - 1].1, t))
    }
}

/// Builds the lookup table of `pairs` (given as the mapping and a direction).
fn build_table(mapping: &[MappingEntry], forward: bool) -> (t: StringHashMap<String>)
    ensures
        forall|k: Seq<char>| #[trigger] t@.contains_key(k) == (if forward {
            table_of(forward_pairs(mapping@))
        } else {
            table_of(backward_pairs(mapping@))
        }).contains_key(k),
        forall|k: Seq<char>| #[trigger] t@.contains_key(k) ==> t@[k]@ == (if forward {
            table_of(forward_pairs(mapping@))
        } else {
            table_of(backward_pairs(mapping@))
        })[k],
{
    let ghost pairs = if forward {
        forward_pairs(mapping@)
    } else {
        backward_pairs(mapping@)
    };
    let mut t: StringHashMap<String> = StringHashMap::new();
    let mut i: usize = 0;
    while i < mapping.len()
        invariant
            i <= mapping@.len(),
            pairs.len() == mapping@.len(),
            pairs == if forward {
                forward_pairs(mapping@)
            } else {
                backward_pairs(mapping@)
            },
            forall|k: Seq<char>| #[trigger] t@.contains_key(k) == table_of(pairs.take(i as int)).contains_key(k),
            forall|k: Seq<char>| #[trigger] t@.contains_key(k) ==> t@[k]@ == table_of(pairs.take(i as int))[k],
        decreases mapping@.len() - i,
    {
        let e = &mapping[i];
        let (k, v) = if forward {
            (e.key.clone(), e.value.clone())
        } else {
            (e.value.clone(), e.key.clone())
        };
        proof {
            assert(pairs.take(i + 1).drop_last() =~= pairs.take(i as int));
            assert(pairs.take(i + 1).last() == (k@, v@));
        }
        t.insert(k, v);
        i = i + 1;
    }
    assert(pairs.take(mapping@.len() as int) =~= pairs);
    t
}

/// The view of a table as names to names.
pub open spec fn table_view(t: StringHashMap<String>) -> Map<Seq<char>, Seq<char>> {
    Map::new(|k: Seq<char>| t@.contains_key(k), |k: Seq<char>| t@[k]@)
}

fn rename_exec(k: &String, t: &StringHashMap<String>) -> (r: String)
    ensures
        r@ == rename(k@, table_view(*t)),
{
    match t.get(k.as_str()) {
        Some(n) => n.clone(),
        None => k.clone(),
    }
}

/// `v` with every object key renamed through the table `t`.
pub fn map_value(v: &JsonValue, t: &StringHashMap<String>) -> (r: JsonValue)
    ensures
        r.model() == map_json(v.model(), table_view(*t)),
    decreases v,
{
    let ghost tv = table_view(*t);
    match v {
        JsonValue::Array(xs) => {
            let ghost xm = v.model()->Arr_0;
            let mut out: Vec<JsonValue> = Vec::new();
            let mut i: usize = 0;
            while i < xs.len()
                invariant
                    *v == JsonValue::Array(*xs),
                    xm == v.model()->Arr_0,
                    xm.len() == xs@.len(),
                    tv == table_view(*t),
                    i <= xs@.len(),
                    JsonValue::Array(out).model()->Arr_0 == map_elems(xm, tv, i as int),
                decreases xs@.len() - i,
            {
                proof {
                    lemma_arr_entry(xs, i as int);
                    assert(decreases_to!(*v => xs@[i as int]));
                }
                let c = map_value(&xs[i], t);
                let ghost before = out;
                out.push(c);
                proof {
                    assert(JsonValue::Array(out).model()->Arr_0 =~= JsonValue::Array(before).model()->Arr_0.push(c.model())) by {
                        assert forall|m: int| 0 <= m < out@.len() implies #[trigger] JsonValue::Array(out).model()->Arr_0[m] == JsonValue::Array(before).model()->Arr_0.push(c.model())[m] by {
                            lemma_arr_entry(&out, m);
                            if m < before@.len() {
                                lemma_arr_entry(&before, m);
                            }
                        }
                    }
                }
                i = i + 1;
            }
            JsonValue::Array(out)
        },
        JsonValue::Object(es) => {
            let ghost em = v.model()->Obj_0;
            let mut out: Vec<(String, JsonValue)> = Vec::new();
            let mut i: usize = 0;
            proof {
                assert(JsonValue::Object(out).model()->Obj_0 =~= Seq::<(Seq<char>, Json)>::empty());
            }
            while i < es.len()
                invariant
                    *v == JsonValue::Object(*es),
                    em == v.model()->Obj_0,
                    em.len() == es@.len(),
                    tv == table_view(*t),
                    i <= es@.len(),
                    JsonValue::Object(out).model()->Obj_0 == map_entries(em, tv, i as int),
                decreases es@.len() - i,
            {
                proof {
                    lemma_obj_entry(es, i as int);
                    assert(decreases_to!(*v => es@[i as int].1));
                }
                let c = map_value(&es[i].1, t);
                let k = rename_exec(&es[i].0, t);
                obj_insert_exec(&mut out, k, c);
                i = i + 1;
            }
            JsonValue::Object(out)
        },
        _ => v.deep_clone(),
    }
}

/// Renames obfuscated keys to readable names (`Key` to `Value`).
pub fn map_keys(v: &JsonValue, mapping: &[MappingEntry]) -> (r: JsonValue)
    ensures
        r.model() == map_json(v.model(), table_of(forward_pairs(mapping@))),
{
    let t = build_table(mapping, true);
    proof {
        assert(table_view(t) =~= table_of(forward_pairs(mapping@)));
    }
    map_value(v, &t)
}

/// Renames readable names back to obfuscated keys (`Value` to `Key`).
pub fn reverse_map_keys(v: &JsonValue, mapping: &[MappingEntry]) -> (r: JsonValue)
    ensures
        r.model() == map_json(v.model(), table_of(backward_pairs(mapping@))),
{
    let t = build_table(mapping, false);
    proof {
        assert(table_view(t) =~= table_of(backward_pairs(mapping@)));
    }
    map_value(v, &t)
}

// ---------------------------------------------------------------------------
// Renaming back
// ---------------------------------------------------------------------------

/// The keys of `es` strictly increase (so they are distinct), as in an
/// object read into a sorted map.
#[verifier::opaque]
pub open spec fn strictly_sorted(es: Seq<(Seq<char>, Json)>) -> bool {
    forall|i: int, j: int| 0 <= i < j < es.len() ==> seq_lt(#[trigger] es[i].0, #[trigger] es[j].0)
}

/// Every object in `v` has strictly increasing keys (true of a document
/// parsed into sorted maps).
pub open spec fn canonical(v: Json) -> bool
    decreases v,
{
    match v {
        Json::Arr(xs) => forall|i: int| 0 <= i < xs.len() ==> canonical(#[trigger] xs[i]),
        Json::Obj(es) => strictly_sorted(es) && forall|i: int|
            0 <= i < es.len() ==> canonical(#[trigger] es[i].1),
        _ => true,
    }
}

/// Renaming through `t` and then `u` gives back every object key of `v`.
pub open spec fn undone_by(v: Json, t: Map<Seq<char>, Seq<char>>, u: Map<Seq<char>, Seq<char>>) -> bool
    decreases v,
{
    match v {
        Json::Arr(xs) => forall|i: int| 0 <= i < xs.len() ==> undone_by(#[trigger] xs[i], t, u),
        Json::Obj(es) => {
            &&& forall|i: int|
                0 <= i < es.len() ==> rename(rename(#[trigger] es[i].0, t), u) == es[i].0
            &&& forall|i: int| 0 <= i < es.len() ==> undone_by(#[trigger] es[i].1, t, u)
        },
        _ => true,
    }
}

proof fn lemma_sorted_at(es: Seq<(Seq<char>, Json)>, i: int, j: int)
    requires
        strictly_sorted(es),
        0 <= i < j < es.len(),
    ensures
        seq_lt(es[i].0, es[j].0),
{
    reveal(strictly_sorted);
}

proof fn lemma_sorted_distinct(es: Seq<(Seq<char>, Json)>, i: int, j: int)
    requires
        strictly_sorted(es),
        0 <= i < es.len(),
        0 <= j < es.len(),
        i != j,
    ensures
        es[i].0 != es[j].0,
{
    if i < j {
        lemma_sorted_at(es, i, j);
    } else {
        lemma_sorted_at(es, j, i);
    }
    lemma_seq_lt_order(es[i].0, es[j].0, es[i].0);
}

proof fn lemma_insert_pos(es: Seq<(Seq<char>, Json)>, k: Seq<char>, i: int)
    requires
        0 <= i <= es.len(),
    ensures
        i <= insert_pos_from(es, k, i) <= es.len(),
        forall|m: int| i <= m < insert_pos_from(es, k, i) ==> !seq_lt(k, #[trigger] es[m].0),
        insert_pos_from(es, k, i) < es.len() ==> seq_lt(k, es[insert_pos_from(es, k, i)].0),
    decreases es.len() - i,
{
    if i < es.len() && !seq_lt(k, es[i].0) {
        lemma_insert_pos(es, k, i + 1);
    }
}

/// Inserting a new key into a strictly sorted object keeps it strictly
/// sorted.
proof fn lemma_insert_sorted(es: Seq<(Seq<char>, Json)>, k: Seq<char>, x: Json)
    requires
        strictly_sorted(es),
        forall|i: int| 0 <= i < es.len() ==> #[trigger] es[i].0 != k,
    ensures
        obj_insert(es, k, x) == es.insert(insert_pos_from(es, k, 0), (k, x)),
        0 <= insert_pos_from(es, k, 0) <= es.len(),
        strictly_sorted(obj_insert(es, k, x)),
{
    lemma_key_index_from(es, k, 0);
    lemma_insert_pos(es, k, 0);
    let p = insert_pos_from(es, k, 0);
    let r = es.insert(p, (k, x));
    assert forall|a: int, b: int| 0 <= a < b < r.len() implies seq_lt(#[trigger] r[a].0, #[trigger] r[b].0) by {
        if b < p {
            lemma_sorted_at(es, a, b);
        } else if a > p {
            lemma_sorted_at(es, a - 1, b - 1);
        } else if b == p {
            assert(r[a] == es[a]);
            assert(!seq_lt(k, es[a].0));
            assert(es[a].0 != k);
            lemma_seq_lt_order(es[a].0, k, k);
        } else if a == p {
            assert(r[b] == es[b - 1]);
            if b - 1 > p {
                lemma_sorted_at(es, p, b - 1);
                lemma_seq_lt_order(k, es[p].0, es[b - 1].0);
            }
        } else {
            lemma_sorted_at(es, a, b - 1);
        }
    }
    reveal(strictly_sorted);
}

/// The entry of `es[j]` after renaming.
pub open spec fn renamed_entry(es: Seq<(Seq<char>, Json)>, t: Map<Seq<char>, Seq<char>>, j: int) -> (Seq<char>, Json) {
    (rename(es[j].0, t), map_json(es[j].1, t))
}

/// Renaming is one-to-one on the first `n` keys of `es`.
pub open spec fn rename_injective(es: Seq<(Seq<char>, Json)>, t: Map<Seq<char>, Seq<char>>, n: int) -> bool {
    forall|i: int, j: int|
        0 <= i < n && 0 <= j < n && #[trigger] rename(es[i].0, t) == #[trigger] rename(es[j].0, t) ==> i == j
}

/// `e` is an entry of `m`.
#[verifier::opaque]
pub open spec fn has_entry(m: Seq<(Seq<char>, Json)>, e: (Seq<char>, Json)) -> bool {
    exists|i: int| 0 <= i < m.len() && m[i] == e
}

proof fn lemma_has_entry_intro(m: Seq<(Seq<char>, Json)>, i: int)
    requires
        0 <= i < m.len(),
    ensures
        has_entry(m, m[i]),
{
    reveal(has_entry);
}

proof fn has_entry_at(m: Seq<(Seq<char>, Json)>, e: (Seq<char>, Json)) -> (i: int)
    requires
        has_entry(m, e),
    ensures
        0 <= i < m.len(),
        m[i] == e,
{
    reveal(has_entry);
    choose|i: int| 0 <= i < m.len() && m[i] == e
}

/// `e` is the renamed entry of one of the first `n` entries of `es`.
#[verifier::opaque]
pub open spec fn renamed_from(es: Seq<(Seq<char>, Json)>, t: Map<Seq<char>, Seq<char>>, n: int, e: (Seq<char>, Json)) -> bool {
    exists|j: int| 0 <= j < n && renamed_entry(es, t, j) == e
}

proof fn lemma_renamed_from_intro(es: Seq<(Seq<char>, Json)>, t: Map<Seq<char>, Seq<char>>, n: int, j: int)
    requires
        0 <= j < n,
    ensures
        renamed_from(es, t, n, renamed_entry(es, t, j)),
{
    reveal(renamed_from);
}

proof fn renamed_from_at(es: Seq<(Seq<char>, Json)>, t: Map<Seq<char>, Seq<char>>, n: int, e: (Seq<char>, Json)) -> (j: int)
    requires
        renamed_from(es, t, n, e),
    ensures
        0 <= j < n,
        renamed_entry(es, t, j) == e,
{
    reveal(renamed_from);
    choose|j: int| 0 <= j < n && renamed_entry(es, t, j) == e
}

#[verifier::rlimit(40)]
proof fn lemma_map_entries(es: Seq<(Seq<char>, Json)>, t: Map<Seq<char>, Seq<char>>, n: int)
    requires
        0 <= n <= es.len(),
        rename_injective(es, t, n),
    ensures
        map_entries(es, t, n).len() == n,
        strictly_sorted(map_entries(es, t, n)),
        forall|j: int| 0 <= j < n ==> has_entry(map_entries(es, t, n), #[trigger] renamed_entry(es, t, j)),
        forall|i: int| 0 <= i < n ==> renamed_from(es, t, n, #[trigger] map_entries(es, t, n)[i]),
    decreases n,
{
    if n == 0 {
        reveal(strictly_sorted);
    } else {
        assert(rename_injective(es, t, n - 1));
        lemma_map_entries(es, t, n - 1);
        let prev = map_entries(es, t, n - 1);
        let k = rename(es[n - 1].0, t);
        let x = map_json(es[n - 1].1, t);
        assert forall|i: int| 0 <= i < prev.len() implies #[trigger] prev[i].0 != k by {
            let j = renamed_from_at(es, t, n - 1, prev[i]);
            assert(rename(es[j].0, t) == prev[i].0);
            if prev[i].0 == k {
                assert(rename(es[j].0, t) == rename(es[n - 1].0, t));
            }
        }
        lemma_insert_sorted(prev, k, x);
        let p = insert_pos_from(prev, k, 0);
        let m = map_entries(es, t, n);
        assert(m == prev.insert(p, (k, x)));
        assert forall|j: int| 0 <= j < n implies has_entry(m, #[trigger] renamed_entry(es, t, j)) by {
            if j == n - 1 {
                lemma_has_entry_intro(m, p);
            } else {
                let i = has_entry_at(prev, renamed_entry(es, t, j));
                if i < p {
                    lemma_has_entry_intro(m, i);
                } else {
                    lemma_has_entry_intro(m, i + 1);
                }
            }
        }
        assert forall|i: int| 0 <= i < n implies renamed_from(es, t, n, #[trigger] m[i]) by {
            if i == p {
                lemma_renamed_from_intro(es, t, n, n - 1);
            } else {
                let q = if i < p { i } else { i - 1 };
                assert(m[i] == prev[q]);
                let j = renamed_from_at(es, t, n - 1, prev[q]);
                lemma_renamed_from_intro(es, t, n, j);
            }
        }
    }
}

/// Two strictly sorted objects with the same entries are the same.
#[verifier::rlimit(40)]
proof fn lemma_sorted_unique(a: Seq<(Seq<char>, Json)>, b: Seq<(Seq<char>, Json)>)
    requires
        strictly_sorted(a),
        strictly_sorted(b),
        forall|i: int| 0 <= i < a.len() ==> has_entry(b, #[trigger] a[i]),
        forall|j: int| 0 <= j < b.len() ==> has_entry(a, #[trigger] b[j]),
    ensures
        a == b,
    decreases a.len(),
{
    if a.len() == 0 {
        if b.len() > 0 {
            let i = has_entry_at(a, b[0]);
        }
        assert(a =~= b);
    } else if b.len() == 0 {
        let j = has_entry_at(b, a[0]);
    } else {
        let j = has_entry_at(b, a[0]);
        let i = has_entry_at(a, b[0]);
        if j > 0 {
            lemma_sorted_at(b, 0, j);
            if i > 0 {
                lemma_sorted_at(a, 0, i);
                lemma_seq_lt_order(a[0].0, b[0].0, a[0].0);
            } else {
                lemma_seq_lt_order(b[0].0, b[0].0, b[0].0);
            }
        }
        assert(a[0] == b[0]);
        let ta = a.drop_first();
        let tb = b.drop_first();
        assert forall|p: int| 0 <= p < ta.len() implies has_entry(tb, #[trigger] ta[p]) by {
            assert(ta[p] == a[p + 1]);
            let q = has_entry_at(b, a[p + 1]);
            if q == 0 {
                lemma_sorted_distinct(a, 0, p + 1);
            }
            assert(tb[q - 1] == b[q]);
            lemma_has_entry_intro(tb, q - 1);
        }
        assert forall|q: int| 0 <= q < tb.len() implies has_entry(ta, #[trigger] tb[q]) by {
            assert(tb[q] == b[q + 1]);
            let p = has_entry_at(a, b[q + 1]);
            if p == 0 {
                lemma_sorted_distinct(b, 0, q + 1);
            }
            assert(ta[p - 1] == a[p]);
            lemma_has_entry_intro(ta, p - 1);
        }
        assert(strictly_sorted(ta)) by {
            reveal(strictly_sorted);
            assert forall|x: int, y: int| 0 <= x < y < ta.len() implies seq_lt(#[trigger] ta[x].0, #[trigger] ta[y].0) by {
                assert(ta[x] == a[x + 1] && ta[y] == a[y + 1]);
                lemma_sorted_at(a, x + 1, y + 1);
            }
        }
        assert(strictly_sorted(tb)) by {
            reveal(strictly_sorted);
            assert forall|x: int, y: int| 0 <= x < y < tb.len() implies seq_lt(#[trigger] tb[x].0, #[trigger] tb[y].0) by {
                assert(tb[x] == b[x + 1] && tb[y] == b[y + 1]);
                lemma_sorted_at(b, x + 1, y + 1);
            }
        }
        lemma_sorted_unique(ta, tb);
        assert(a =~= seq![a[0]] + ta);
        assert(b =~= seq![b[0]] + tb);
    }
}

proof fn lemma_map_elems(xs: Seq<Json>, t: Map<Seq<char>, Seq<char>>, n: int)
    requires
        0 <= n <= xs.len(),
    ensures
        map_elems(xs, t, n).len() == n,
        forall|i: int| 0 <= i < n ==> #[trigger] map_elems(xs, t, n)[i] == map_json(xs[i], t),
    decreases n,
{
    if n > 0 {
        lemma_map_elems(xs, t, n - 1);
    }
}

proof fn lemma_roundtrip_obj(es: Seq<(Seq<char>, Json)>, t: Map<Seq<char>, Seq<char>>, u: Map<Seq<char>, Seq<char>>)
    requires
        strictly_sorted(es),
        forall|i: int| 0 <= i < es.len() ==> rename(rename(#[trigger] es[i].0, t), u) == es[i].0,
        forall|i: int| 0 <= i < es.len() ==> map_json(map_json(#[trigger] es[i].1, t), u) == es[i].1,
    ensures
        map_entries(es, t, es.len() as int).len() == es.len(),
        map_entries(map_entries(es, t, es.len() as int), u, es.len() as int) == es,
{
    let n = es.len() as int;
    assert forall|i: int, j: int|
        0 <= i < n && 0 <= j < n && #[trigger] rename(es[i].0, t) == #[trigger] rename(es[j].0, t) implies i == j by {
        assert(rename(rename(es[i].0, t), u) == es[i].0);
        assert(rename(rename(es[j].0, t), u) == es[j].0);
        if i != j {
            lemma_sorted_distinct(es, i, j);
        }
    }
    lemma_map_entries(es, t, n);
    let m1 = map_entries(es, t, n);
    assert forall|i: int, j: int|
        0 <= i < n && 0 <= j < n && #[trigger] rename(m1[i].0, u) == #[trigger] rename(m1[j].0, u) implies i == j by {
        let a = renamed_from_at(es, t, n, m1[i]);
        let b = renamed_from_at(es, t, n, m1[j]);
        assert(rename(m1[i].0, u) == es[a].0);
        assert(rename(m1[j].0, u) == es[b].0);
        if a != b {
            lemma_sorted_distinct(es, a, b);
        }
        if i != j {
            lemma_sorted_distinct(m1, i, j);
        }
    }
    lemma_map_entries(m1, u, n);
    let m2 = map_entries(m1, u, n);
    assert forall|q: int| 0 <= q < m2.len() implies has_entry(es, #[trigger] m2[q]) by {
        let i = renamed_from_at(m1, u, n, m2[q]);
        let a = renamed_from_at(es, t, n, m1[i]);
        assert(map_json(map_json(es[a].1, t), u) == es[a].1);
        assert(m2[q] == es[a]);
        lemma_has_entry_intro(es, a);
    }
    assert forall|a: int| 0 <= a < es.len() implies has_entry(m2, #[trigger] es[a]) by {
        let i = has_entry_at(m1, renamed_entry(es, t, a));
        assert(renamed_entry(m1, u, i) == es[a]) by {
            assert(map_json(map_json(es[a].1, t), u) == es[a].1);
        }
        assert(has_entry(m2, renamed_entry(m1, u, i)));
    }
    lemma_sorted_unique(m2, es);
}

/// Renaming back undoes renaming: for a document as parsed (each object's
/// keys strictly increasing) and two tables such that every object key of
/// the document, renamed through `t` and then `u`, comes back, renaming
/// through `t` and then through `u` gives the document back. With `t` the
/// mapping's `Key` to `Value` table and `u` its `Value` to `Key` table,
/// this is `reverse_map_keys(map_keys(v))` giving `v` back.
pub proof fn law_rename_roundtrip(v: Json, t: Map<Seq<char>, Seq<char>>, u: Map<Seq<char>, Seq<char>>)
    requires
        canonical(v),
        undone_by(v, t, u),
    ensures
        map_json(map_json(v, t), u) == v,
    decreases v,
{
    match v {
        Json::Arr(xs) => {
            let n = xs.len() as int;
            lemma_map_elems(xs, t, n);
            let ys = map_elems(xs, t, n);
            lemma_map_elems(ys, u, n);
            let zs = map_elems(ys, u, n);
            assert forall|i: int| 0 <= i < n implies zs[i] == xs[i] by {
                assert(decreases_to!(v => xs[i]));
                assert(canonical(xs[i]));
                assert(undone_by(xs[i], t, u));
                law_rename_roundtrip(xs[i], t, u);
            }
            assert(zs =~= xs);
            assert(map_json(v, t) == Json::Arr(ys));
        },
        Json::Obj(es) => {
            assert forall|i: int| 0 <= i < es.len() implies map_json(map_json(#[trigger] es[i].1, t), u) == es[i].1 by {
                assert(decreases_to!(v => es[i].1));
                assert(canonical(es[i].1));
                assert(undone_by(es[i].1, t, u));
                law_rename_roundtrip(es[i].1, t, u);
            }
            lemma_roundtrip_obj(es, t, u);
            let m1 = map_entries(es, t, es.len() as int);
            assert(map_json(v, t) == Json::Obj(m1));
            assert(map_json(Json::Obj(m1), u) == Json::Obj(es));
        },
        _ => {},
    }
}

/// No two entries of the mapping share a `Key`, and no two share a `Value`.
pub open spec fn one_to_one(m: Seq<MappingEntry>) -> bool {
    &&& forall|i: int, j: int| 0 <= i < j < m.len() ==> #[trigger] m[i].key@ != #[trigger] m[j].key@
    &&& forall|i: int, j: int| 0 <= i < j < m.len() ==> #[trigger] m[i].value@ != #[trigger] m[j].value@
}

/// `k` is the `Key` of some entry.
pub open spec fn is_key(m: Seq<MappingEntry>, k: Seq<char>) -> bool {
    exists|i: int| 0 <= i < m.len() && #[trigger] m[i].key@ == k
}

/// `k` is the `Value` of some entry.
pub open spec fn is_value(m: Seq<MappingEntry>, k: Seq<char>) -> bool {
    exists|i: int| 0 <= i < m.len() && #[trigger] m[i].value@ == k
}

/// Every object key of `v` that is some entry's `Value` is also some
/// entry's `Key` (so renaming back cannot turn a readable key into one it
/// never was).
pub open spec fn keys_fit(v: Json, m: Seq<MappingEntry>) -> bool
    decreases v,
{
    match v {
        Json::Arr(xs) => forall|i: int| 0 <= i < xs.len() ==> keys_fit(#[trigger] xs[i], m),
        Json::Obj(es) => {
            &&& forall|i: int| 0 <= i < es.len() ==> (is_value(m, #[trigger] es[i].0) ==> is_key(m, es[i].0))
            &&& forall|i: int| 0 <= i < es.len() ==> keys_fit(#[trigger] es[i].1, m)
        },
        _ => true,
    }
}

/// With distinct first items, the table of `pairs` holds exactly their
/// first items, each mapped to its own second item.
proof fn lemma_table_of(pairs: Seq<(Seq<char>, Seq<char>)>, k: Seq<char>)
    requires
        forall|i: int, j: int| 0 <= i < j < pairs.len() ==> #[trigger] pairs[i].0 != #[trigger] pairs[j].0,
    ensures
        table_of(pairs).contains_key(k) <==> exists|i: int| 0 <= i < pairs.len() && #[trigger] pairs[i].0 == k,
        forall|i: int| 0 <= i < pairs.len() && #[trigger] pairs[i].0 == k ==> table_of(pairs)[k] == pairs[i].1,
    decreases pairs.len(),
{
    if pairs.len() > 0 {
        let rest = pairs.drop_last();
        lemma_table_of(rest, k);
        assert forall|i: int| 0 <= i < pairs.len() && #[trigger] pairs[i].0 == k implies table_of(pairs)[k] == pairs[i].1 by {
            if i < pairs.len() - 1 {
                assert(rest[i] == pairs[i]);
                assert(pairs[i].0 != pairs[pairs.len() - 1].0);
            }
        }
        if exists|i: int| 0 <= i < pairs.len() && #[trigger] pairs[i].0 == k {
            let i = choose|i: int| 0 <= i < pairs.len() && #[trigger] pairs[i].0 == k;
            if i < pairs.len() - 1 {
                assert(rest[i].0 == k);
            }
        }
        if exists|i: int| 0 <= i < rest.len() && #[trigger] rest[i].0 == k {
            let i = choose|i: int| 0 <= i < rest.len() && #[trigger] rest[i].0 == k;
            assert(pairs[i].0 == k);
        }
    }
}

/// With a one-to-one mapping, renaming a key that fits forward and then
/// back gives the key.
proof fn lemma_key_back(m: Seq<MappingEntry>, k: Seq<char>)
    requires
        one_to_one(m),
        is_value(m, k) ==> is_key(m, k),
    ensures
        rename(rename(k, table_of(forward_pairs(m))), table_of(backward_pairs(m))) == k,
{
    let f = forward_pairs(m);
    let b = backward_pairs(m);
    assert forall|i: int, j: int| 0 <= i < j < f.len() implies #[trigger] f[i].0 != #[trigger] f[j].0 by {
        assert(m[i].key@ != m[j].key@);
    }
    assert forall|i: int, j: int| 0 <= i < j < b.len() implies #[trigger] b[i].0 != #[trigger] b[j].0 by {
        assert(m[i].value@ != m[j].value@);
    }
    lemma_table_of(f, k);
    if is_key(m, k) {
        let i = choose|i: int| 0 <= i < m.len() && #[trigger] m[i].key@ == k;
        assert(f[i].0 == k);
        let w = m[i].value@;
        lemma_table_of(b, w);
        assert(b[i].0 == w);
    } else {
        assert forall|i: int| 0 <= i < f.len() implies #[trigger] f[i].0 != k by {
            assert(f[i].0 == m[i].key@);
        }
        lemma_table_of(b, k);
        assert forall|i: int| 0 <= i < b.len() implies #[trigger] b[i].0 != k by {
            assert(b[i].0 == m[i].value@);
        }
    }
}

proof fn lemma_fit_undone(v: Json, m: Seq<MappingEntry>)
    requires
        one_to_one(m),
        keys_fit(v, m),
    ensures
        undone_by(v, table_of(forward_pairs(m)), table_of(backward_pairs(m))),
    decreases v,
{
    let t = table_of(forward_pairs(m));
    let u = table_of(backward_pairs(m));
    match v {
        Json::Arr(xs) => {
            assert forall|i: int| 0 <= i < xs.len() implies undone_by(#[trigger] xs[i], t, u) by {
                assert(decreases_to!(v => xs[i]));
                assert(keys_fit(xs[i], m));
                lemma_fit_undone(xs[i], m);
            }
        },
        Json::Obj(es) => {
            assert forall|i: int| 0 <= i < es.len() implies rename(rename(#[trigger] es[i].0, t), u) == es[i].0 by {
                lemma_key_back(m, es[i].0);
            }
            assert forall|i: int| 0 <= i < es.len() implies undone_by(#[trigger] es[i].1, t, u) by {
                assert(decreases_to!(v => es[i].1));
                assert(keys_fit(es[i].1, m));
                lemma_fit_undone(es[i].1, m);
            }
        },
        _ => {},
    }
}

/// Renaming readable keys back gives the save back: for a document as
/// parsed (each object's keys strictly increasing), a mapping in which no
/// two entries share a `Key` or a `Value`, and a document none of whose
/// keys is a `Value` without also being a `Key`, `reverse_map_keys` of
/// `map_keys` of the document is the document. (With repeated `Key`s or
/// `Value`s, as the published mapping has, keys can be lost.)
pub proof fn law_mapping_roundtrip(v: Json, m: Seq<MappingEntry>)
    requires
        canonical(v),
        one_to_one(m),
        keys_fit(v, m),
    ensures
        map_json(map_json(v, table_of(forward_pairs(m))), table_of(backward_pairs(m))) == v,
{
    lemma_fit_undone(v, m);
    law_rename_roundtrip(v, table_of(forward_pairs(m)), table_of(backward_pairs(m)));
}

// ---------------------------------------------------------------------------
// The mapping file
// ---------------------------------------------------------------------------

/// Where the pairs of a mapping file are: under `Mapping`, or the whole
/// file when it is a list.
pub enum MappingList<'a> {
    /// The `Mapping` list of an object.
    Wrapped(&'a Vec<JsonValue>),
    /// The file is the list.
    Bare(&'a Vec<JsonValue>),
}

/// The list of pairs a mapping file holds: its `Mapping` array, else the
/// file itself when it is an array; else the format is not known.
pub open spec fn mapping_list_spec(v: Json) -> Result<(bool, Seq<Json>), Seq<char>> {
    match v.get_key("Mapping"@) {
        Some(Json::Arr(xs)) => Ok((true, xs)),
        _ => match v {
            Json::Arr(xs) => Ok((false, xs)),
            _ => Err("unexpected mapping file format"@),
        },
    }
}

/// Finds the list of pairs in a mapping file (see `mapping_list_spec`).
pub fn mapping_list(v: &JsonValue) -> (r: Result<MappingList<'_>, String>)
    ensures
        match r {
            Ok(MappingList::Wrapped(xs)) => mapping_list_spec(v.model()) == Ok::<(bool, Seq<Json>), Seq<char>>((true, crate::json::models(xs@))),
            Ok(MappingList::Bare(xs)) => mapping_list_spec(v.model()) == Ok::<(bool, Seq<Json>), Seq<char>>((false, crate::json::models(xs@))),
            Err(e) => mapping_list_spec(v.model()) == Err::<(bool, Seq<Json>), Seq<char>>(e@),
        },
{
    match v.get("Mapping") {
        Some(m) => match m.as_array() {
            Some(xs) => return Ok(MappingList::Wrapped(xs)),
            None => {},
        },
        None => {},
    }
    match v.as_array() {
        Some(xs) => Ok(MappingList::Bare(xs)),
        None => Err("unexpected mapping file format".to_owned()),
    }
}

/// How long a downloaded mapping is trusted: seven days.
pub open spec fn cache_max_age_secs() -> nat {
    7 * 86400
}

/// A cached mapping is fresh when its age is known and under seven days.
pub fn cache_fresh(age_secs: Option<u64>) -> (r: bool)
    ensures
        r == match age_secs {
            Some(a) => a < cache_max_age_secs(),
            None => false,
        },
{
    match age_secs {
        Some(a) => a < 7 * 86400,
        None => false,
    }
}

} // verus!
