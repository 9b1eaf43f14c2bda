//! A JSON document as the save engine reads and edits it.
//!
//! `JsonValue` holds what a parsed document holds; objects keep their entries
//! in the order they were read (for a document parsed into a sorted map, that
//! is key order). `Json` is its mathematical model.
use vstd::prelude::*;
use crate::text::{seq_lt, str_eq, str_lt};

verus! {

/// A JSON number as read from a document.
#[derive(Debug, PartialEq)]
pub enum JsonNumber {
    /// A non-negative integer.
    PosInt(u64),
    /// A negative integer.
    NegInt(i64),
    /// A number with a fraction or exponent, kept as the bits of its `f64`.
    Float(u64),
}

/// A JSON value.
#[derive(Debug, PartialEq)]
pub enum JsonValue {
    Null,
    Bool(bool),
    Number(JsonNumber),
    Str(String),
    Array(Vec<JsonValue>),
    Object(Vec<(String, JsonValue)>),
}

/// Mathematical model of a JSON value.
pub enum Json {
    Null,
    Bool(bool),
    Num(JsonNumber),
    Str(Seq<char>),
    Arr(Seq<Json>),
    Obj(Seq<(Seq<char>, Json)>),
}

impl JsonNumber {
    pub open spec fn same(self, other: JsonNumber) -> bool {
        self == other
    }
}

impl JsonValue {
    /// The model of this value.
    pub open spec fn model(self) -> Json
        decreases self,
    {
        match self {
            JsonValue::Null => Json::Null,
            JsonValue::Bool(b) => Json::Bool(b),
            JsonValue::Number(n) => Json::Num(n),
            JsonValue::Str(s) => Json::Str(s@),
            JsonValue::Array(v) => Json::Arr(
                Seq::new(
                    v.len() as nat,
                    |i: int|
                        if 0 <= i < v.len() {
                            v@[i].model()
                        } else {
                            Json::Null
                        },
                ),
            ),
            JsonValue::Object(v) => Json::Obj(
                Seq::new(
                    v.len() as nat,
                    |i: int|
                        if 0 <= i < v.len() {
                            (v@[i].0@, v@[i].1.model())
                        } else {
                            (Seq::empty(), Json::Null)
                        },
                ),
            ),
        }
    }
}

/// The models of a sequence of values.
pub open spec fn models(v: Seq<JsonValue>) -> Seq<Json> {
    Seq::new(v.len(), |i: int| v[i].model())
}

/// The model of an optional borrowed value.
pub open spec fn opt_model(o: Option<&JsonValue>) -> Option<Json> {
    match o {
        Some(v) => Some(v.model()),
        None => None,
    }
}

// ---------------------------------------------------------------------------
// Lookup in the model
// ---------------------------------------------------------------------------

/// Index of the first entry at or after `i` whose key is `k`.
pub open spec fn key_index_from(es: Seq<(Seq<char>, Json)>, k: Seq<char>, i: int) -> Option<int>
    decreases es.len() - i,
{
    if i < 0 || i >= es.len() {
        None
    } else if es[i].0 == k {
        Some(i)
    } else {
        key_index_from(es, k, i + 1)
    }
}

/// Index of the first entry whose key is `k`.
pub open spec fn key_index(es: Seq<(Seq<char>, Json)>, k: Seq<char>) -> Option<int> {
    key_index_from(es, k, 0)
}

pub proof fn lemma_key_index_from(es: Seq<(Seq<char>, Json)>, k: Seq<char>, i: int)
    requires
        0 <= i,
    ensures
        key_index_from(es, k, i) matches Some(j) ==> i <= j < es.len() && es[j].0 == k && forall|
            m: int,
        | i <= m < j ==> es[m].0 != k,
        key_index_from(es, k, i) is None ==> forall|m: int| i <= m < es.len() ==> es[m].0 != k,
    decreases es.len() - i,
{
    if i < es.len() && es[i].0 != k {
        lemma_key_index_from(es, k, i + 1);
    }
}

impl Json {
    /// `value.get(key)`: the value stored under `key` in an object.
    pub open spec fn get_key(self, k: Seq<char>) -> Option<Json> {
        match self {
            Json::Obj(es) => match key_index(es, k) {
                Some(j) => Some(es[j].1),
                None => None,
            },
            _ => None,
        }
    }

    /// `value.get(i)`: the element at `i` of an array.
    pub open spec fn get_idx(self, i: int) -> Option<Json> {
        match self {
            Json::Arr(xs) => if 0 <= i < xs.len() {
                Some(xs[i])
            } else {
                None
            },
            _ => None,
        }
    }

    /// `value.as_str()`.
    pub open spec fn as_str(self) -> Option<Seq<char>> {
        match self {
            Json::Str(s) => Some(s),
            _ => None,
        }
    }

    /// `value.as_u64()`.
    pub open spec fn as_u64(self) -> Option<u64> {
        match self {
            Json::Num(JsonNumber::PosInt(n)) => Some(n),
            _ => None,
        }
    }

    /// `value.as_array()`.
    pub open spec fn as_arr(self) -> Option<Seq<Json>> {
        match self {
            Json::Arr(xs) => Some(xs),
            _ => None,
        }
    }
}

// ---------------------------------------------------------------------------
// Executable access
// ---------------------------------------------------------------------------

pub(crate) proof fn lemma_obj_entry(v: &Vec<(String, JsonValue)>, i: int)
    requires
        0 <= i < v@.len(),
    ensures
        JsonValue::Object(*v).model()->Obj_0.len() == v@.len(),
        JsonValue::Object(*v).model()->Obj_0[i] == (v@[i].0@, v@[i].1.model()),
{
}

pub(crate) proof fn lemma_arr_entry(v: &Vec<JsonValue>, i: int)
    requires
        0 <= i < v@.len(),
    ensures
        JsonValue::Array(*v).model()->Arr_0.len() == v@.len(),
        JsonValue::Array(*v).model()->Arr_0[i] == v@[i].model(),
{
}

impl JsonValue {
    /// `value.get(key)` on an object; `None` for a missing key or a
    /// non-object.
    pub fn get(&self, key: &str) -> (r: Option<&JsonValue>)
        ensures
            opt_model(r) == self.model().get_key(key@),
    {
        match self {
            JsonValue::Object(es) => {
                let ghost ms = self.model()->Obj_0;
                proof {
                    lemma_key_index_from(ms, key@, 0);
                }
                let mut i: usize = 0;
                while i < es.len()
                    invariant
                        *self == JsonValue::Object(*es),
                        ms == self.model()->Obj_0,
                        ms.len() == es@.len(),
                        i <= es@.len(),
                        key_index(ms, key@) == key_index_from(ms, key@, i as int),
                    decreases es@.len() - i,
                {
                    proof {
                        lemma_obj_entry(es, i as int);
                    }
                    if str_eq(es[i].0.as_str(), key) {
                        return Some(&es[i].1);
                    }
                    i = i + 1;
                }
                None
            },
            _ => None,
        }
    }

    /// `value.get(i)` on an array.
    pub fn get_index(&self, i: usize) -> (r: Option<&JsonValue>)
        ensures
            opt_model(r) == self.model().get_idx(i as int),
    {
        match self {
            JsonValue::Array(xs) => {
                if i < xs.len() {
                    proof {
                        lemma_arr_entry(xs, i as int);
                    }
                    Some(&xs[i])
                } else {
                    None
                }
            },
            _ => None,
        }
    }

    /// `value.as_str()`.
    pub fn as_str(&self) -> (r: Option<&String>)
        ensures
            match r {
                Some(s) => self.model().as_str() == Some(s@),
                None => self.model().as_str() is None,
            },
    {
        match self {
            JsonValue::Str(s) => Some(s),
            _ => None,
        }
    }

    /// `value.as_u64()`.
    pub fn as_u64(&self) -> (r: Option<u64>)
        ensures
            r == self.model().as_u64(),
    {
        match self {
            JsonValue::Number(JsonNumber::PosInt(n)) => Some(*n),
            _ => None,
        }
    }

    /// `value.as_array()`.
    pub fn as_array(&self) -> (r: Option<&Vec<JsonValue>>)
        ensures
            match r {
                Some(xs) => self.model().as_arr() == Some(models(xs@)),
                None => self.model().as_arr() is None,
            },
    {
        match self {
            JsonValue::Array(xs) => {
                proof {
                    assert(self.model()->Arr_0 =~= models(xs@));
                }
                Some(xs)
            },
            _ => None,
        }
    }

    /// A copy of this value with the same model.
    pub fn deep_clone(&self) -> (r: JsonValue)
        ensures
            r.model() == self.model(),
    {
        clone_value(self)
    }
}

fn clone_value(v: &JsonValue) -> (r: JsonValue)
    ensures
        r.model() == v.model(),
    decreases v,
{
    match v {
        JsonValue::Null => JsonValue::Null,
        JsonValue::Bool(b) => JsonValue::Bool(*b),
        JsonValue::Number(n) => JsonValue::Number(
            match n {
                JsonNumber::PosInt(x) => JsonNumber::PosInt(*x),
                JsonNumber::NegInt(x) => JsonNumber::NegInt(*x),
                JsonNumber::Float(x) => JsonNumber::Float(*x),
            },
        ),
        JsonValue::Str(s) => JsonValue::Str(s.clone()),
        JsonValue::Array(xs) => {
            let mut out: Vec<JsonValue> = Vec::new();
            let mut i: usize = 0;
            while i < xs.len()
                invariant
                    *v == JsonValue::Array(*xs),
                    i <= xs@.len(),
                    out@.len() == i,
                    forall|j: int| 0 <= j < i ==> out@[j].model() == xs@[j].model(),
                decreases xs@.len() - i,
            {
                proof {
                    lemma_arr_entry(xs, i as int);
                    assert(decreases_to!(*v => xs@[i as int]));
                }
                let c = clone_value(&xs[i]);
                out.push(c);
                i = i + 1;
            }
            let r = JsonValue::Array(out);
            assert(r.model()->Arr_0 =~= v.model()->Arr_0);
            r
        },
        JsonValue::Object(es) => {
            let mut out: Vec<(String, JsonValue)> = Vec::new();
            let mut i: usize = 0;
            while i < es.len()
                invariant
                    *v == JsonValue::Object(*es),
                    i <= es@.len(),
                    out@.len() == i,
                    forall|j: int|
                        0 <= j < i ==> out@[j].0@ == es@[j].0@ && out@[j].1.model()
                            == es@[j].1.model(),
                decreases es@.len() - i,
            {
                proof {
                    lemma_obj_entry(es, i as int);
                    assert(decreases_to!(*v => es@[i as int].1));
                }
                let c = clone_value(&es[i].1);
                let k = es[i].0.clone();
                out.push((k, c));
                i = i + 1;
            }
            let r = JsonValue::Object(out);
            assert(r.model()->Obj_0 =~= v.model()->Obj_0);
            r
        },
    }
}

// ---------------------------------------------------------------------------
// Paths and depth-first key search
// ---------------------------------------------------------------------------

/// One step of a path into a document.
#[derive(Debug, PartialEq)]
pub enum Seg {
    Key(String),
    Idx(usize),
}

/// Model of a path step.
pub enum Step {
    Key(Seq<char>),
    Idx(int),
}

impl Seg {
    pub open spec fn step(self) -> Step {
        match self {
            Seg::Key(k) => Step::Key(k@),
            Seg::Idx(i) => Step::Idx(i as int),
        }
    }
}

/// The model of a path.
pub open spec fn steps(p: Seq<Seg>) -> Seq<Step> {
    Seq::new(p.len(), |i: int| p[i].step())
}

/// The model of an optional path.
pub open spec fn opt_steps(p: Option<Vec<Seg>>) -> Option<Seq<Step>> {
    match p {
        Some(v) => Some(steps(v@)),
        None => None,
    }
}

/// Depth-first search for the first object key equal to `t`: objects are
/// searched entry by entry (a matching key wins before its value is
/// searched), arrays element by element. The path ends with the matching key.
pub open spec fn find_in(v: Json, t: Seq<char>) -> Option<Seq<Step>>
    decreases v, 0int,
{
    match v {
        Json::Obj(es) => find_in_obj(es, t, 0),
        Json::Arr(xs) => find_in_arr(xs, t, 0),
        _ => None,
    }
}

pub open spec fn find_in_obj(es: Seq<(Seq<char>, Json)>, t: Seq<char>, i: int) -> Option<
    Seq<Step>,
>
    decreases es, es.len() - i,
{
    if i < 0 || i >= es.len() {
        None
    } else if es[i].0 == t {
        Some(seq![Step::Key(t)])
    } else {
        match find_in(es[i].1, t) {
            Some(p) => Some(seq![Step::Key(es[i].0)] + p),
            None => find_in_obj(es, t, i + 1),
        }
    }
}

pub open spec fn find_in_arr(xs: Seq<Json>, t: Seq<char>, i: int) -> Option<Seq<Step>>
    decreases xs, xs.len() - i,
{
    if i < 0 || i >= xs.len() {
        None
    } else {
        match find_in(xs[i], t) {
            Some(p) => Some(seq![Step::Idx(i)] + p),
            None => find_in_arr(xs, t, i + 1),
        }
    }
}

fn prepend(s: Seg, rest: Vec<Seg>) -> (r: Vec<Seg>)
    ensures
        steps(r@) == seq![s.step()] + steps(rest@),
{
    let mut r: Vec<Seg> = Vec::new();
    r.push(s);
    let mut rest = rest;
    let ghost rs = rest@;
    r.append(&mut rest);
    assert(steps(r@) =~= seq![s.step()] + steps(rs));
    r
}

fn find_exec(v: &JsonValue, t: &str) -> (r: Option<Vec<Seg>>)
    ensures
        opt_steps(r) == find_in(v.model(), t@),
    decreases v,
{
    match v {
        JsonValue::Object(es) => {
            let ghost ms = v.model()->Obj_0;
            let mut i: usize = 0;
            while i < es.len()
                invariant
                    *v == JsonValue::Object(*es),
                    ms == v.model()->Obj_0,
                    ms.len() == es@.len(),
                    i <= es@.len(),
                    find_in(v.model(), t@) == find_in_obj(ms, t@, i as int),
                decreases es@.len() - i,
            {
                proof {
                    lemma_obj_entry(es, i as int);
                    assert(decreases_to!(*v => *es));
                    assert(decreases_to!(*es => es@[i as int]));
                    assert(decreases_to!(es@[i as int] => es@[i as int].1));
                }
                if str_eq(es[i].0.as_str(), t) {
                    let mut p: Vec<Seg> = Vec::new();
                    p.push(Seg::Key(es[i].0.clone()));
                    assert(steps(p@) =~= seq![Step::Key(t@)]);
                    return Some(p);
                }
                match find_exec(&es[i].1, t) {
                    Some(p) => {
                        return Some(prepend(Seg::Key(es[i].0.clone()), p));
                    },
                    None => {},
                }
                i = i + 1;
            }
            None
        },
        JsonValue::Array(xs) => {
            let ghost ms = v.model()->Arr_0;
            let mut i: usize = 0;
            while i < xs.len()
                invariant
                    *v == JsonValue::Array(*xs),
                    ms == v.model()->Arr_0,
                    ms.len() == xs@.len(),
                    i <= xs@.len(),
                    find_in(v.model(), t@) == find_in_arr(ms, t@, i as int),
                decreases xs@.len() - i,
            {
                proof {
                    lemma_arr_entry(xs, i as int);
                    assert(decreases_to!(*v => xs@[i as int]));
                }
                match find_exec(&xs[i], t) {
                    Some(p) => {
                        return Some(prepend(Seg::Idx(i), p));
                    },
                    None => {},
                }
                i = i + 1;
            }
            None
        },
        _ => None,
    }
}

/// The path to the first key named `target` in depth-first order, ending
/// with that key; `None` when no object in the document has such a key.
pub fn find_key_path(v: &JsonValue, target: &str) -> (r: Option<Vec<Seg>>)
    ensures
        opt_steps(r) == find_in(v.model(), target@),
{
    find_exec(v, target)
}

/// Follows `path[i..]` from `v`.
pub open spec fn get_at_from(v: Json, path: Seq<Step>, i: int) -> Option<Json>
    decreases path.len() - i,
{
    if i < 0 || i >= path.len() {
        Some(v)
    } else {
        match path[i] {
            Step::Key(k) => match v.get_key(k) {
                Some(c) => get_at_from(c, path, i + 1),
                None => None,
            },
            Step::Idx(j) => match v.get_idx(j) {
                Some(c) => get_at_from(c, path, i + 1),
                None => None,
            },
        }
    }
}

/// The value reached by following `path` from `v`.
pub open spec fn get_at(v: Json, path: Seq<Step>) -> Option<Json> {
    get_at_from(v, path, 0)
}

/// Follows `path` from `v`: keys in objects, indices in arrays.
pub fn get_at_exec<'a>(v: &'a JsonValue, path: &[Seg]) -> (r: Option<&'a JsonValue>)
    ensures
        opt_model(r) == get_at(v.model(), steps(path@)),
{
    let mut cur = v;
    let mut i: usize = 0;
    while i < path.len()
        invariant
            i <= path@.len(),
            get_at(v.model(), steps(path@)) == get_at_from(cur.model(), steps(path@), i as int),
        decreases path@.len() - i,
    {
        let next = match &path[i] {
            Seg::Key(k) => cur.get(k.as_str()),
            Seg::Idx(j) => cur.get_index(*j),
        };
        match next {
            Some(c) => {
                cur = c;
            },
            None => {
                return None;
            },
        }
        i = i + 1;
    }
    Some(cur)
}

// ---------------------------------------------------------------------------
// Updates
// ---------------------------------------------------------------------------

/// The document with the value at `path[i..]` replaced by `new`; unchanged
/// where the path does not lead anywhere.
pub open spec fn set_at_from(v: Json, path: Seq<Step>, i: int, new: Json) -> Json
    decreases path.len() - i,
{
    if i < 0 || i >= path.len() {
        new
    } else {
        match path[i] {
            Step::Key(k) => match v {
                Json::Obj(es) => match key_index(es, k) {
                    Some(j) => Json::Obj(es.update(j, (es[j].0, set_at_from(es[j].1, path, i + 1, new)))),
                    None => v,
                },
                _ => v,
            },
            Step::Idx(j) => match v {
                Json::Arr(xs) => if 0 <= j < xs.len() {
                    Json::Arr(xs.update(j, set_at_from(xs[j], path, i + 1, new)))
                } else {
                    v
                },
                _ => v,
            },
        }
    }
}

fn key_position(es: &Vec<(String, JsonValue)>, k: &str) -> (r: Option<usize>)
    ensures
        match r {
            Some(j) => key_index(JsonValue::Object(*es).model()->Obj_0, k@) == Some(j as int),
            None => key_index(JsonValue::Object(*es).model()->Obj_0, k@) is None,
        },
        r matches Some(j) ==> j < es@.len(),
{
    let ghost ms = JsonValue::Object(*es).model()->Obj_0;
    proof {
        lemma_key_index_from(ms, k@, 0);
    }
    let mut i: usize = 0;
    while i < es.len()
        invariant
            ms == JsonValue::Object(*es).model()->Obj_0,
            ms.len() == es@.len(),
            i <= es@.len(),
            key_index(ms, k@) == key_index_from(ms, k@, i as int),
        decreases es@.len() - i,
    {
        proof {
            lemma_obj_entry(es, i as int);
        }
        if str_eq(es[i].0.as_str(), k) {
            return Some(i);
        }
        i = i + 1;
    }
    None
}

fn set_at_exec(v: JsonValue, path: &[Seg], i: usize, new: JsonValue) -> (r: JsonValue)
    requires
        i <= path@.len(),
    ensures
        r.model() == set_at_from(v.model(), steps(path@), i as int, new.model()),
    decreases path@.len() - i,
{
    if i >= path.len() {
        return new;
    }
    match &path[i] {
        Seg::Key(k) => {
            match v {
                JsonValue::Object(es) => {
                    let pos = key_position(&es, k.as_str());
                    match pos {
                        Some(j) => {
                            let ghost old_es = es;
                            let mut es = es;
                            proof {
                                lemma_obj_entry(&old_es, j as int);
                            }
                            let (key, child) = es.remove(j);
                            let nc = set_at_exec(child, path, i + 1, new);
                            es.insert(j, (key, nc));
                            let r = JsonValue::Object(es);
                            proof {
                                let om = JsonValue::Object(old_es).model()->Obj_0;
                                assert(r.model()->Obj_0 =~= om.update(
                                    j as int,
                                    (om[j as int].0, set_at_from(om[j as int].1, steps(path@), i + 1, new.model())),
                                )) by {
                                    assert forall|m: int| 0 <= m < es@.len() implies #[trigger] r.model()->Obj_0[m] == om.update(
                                        j as int,
                                        (om[j as int].0, set_at_from(om[j as int].1, steps(path@), i + 1, new.model())),
                                    )[m] by {
                                        lemma_obj_entry(&es, m);
                                        lemma_obj_entry(&old_es, m);
                                    }
                                }
                            }
                            r
                        },
                        None => JsonValue::Object(es),
                    }
                },
                _ => v,
            }
        },
        Seg::Idx(j) => {
            let j = *j;
            match v {
                JsonValue::Array(xs) => {
                    if j < xs.len() {
                        let ghost old_xs = xs;
                        let mut xs = xs;
                        proof {
                            lemma_arr_entry(&old_xs, j as int);
                        }
                        let child = xs.remove(j);
                        let nc = set_at_exec(child, path, i + 1, new);
                        xs.insert(j, nc);
                        let r = JsonValue::Array(xs);
                        proof {
                            let om = JsonValue::Array(old_xs).model()->Arr_0;
                            assert(r.model()->Arr_0 =~= om.update(
                                j as int,
                                set_at_from(om[j as int], steps(path@), i + 1, new.model()),
                            )) by {
                                assert forall|m: int| 0 <= m < xs@.len() implies #[trigger] r.model()->Arr_0[m] == om.update(
                                    j as int,
                                    set_at_from(om[j as int], steps(path@), i + 1, new.model()),
                                )[m] by {
                                    lemma_arr_entry(&xs, m);
                                    lemma_arr_entry(&old_xs, m);
                                }
                            }
                        }
                        r
                    } else {
                        JsonValue::Array(xs)
                    }
                },
                _ => v,
            }
        },
    }
}

/// Replaces the value at `path` by `new`; where `path` does not lead to a
/// value the document comes back unchanged.
pub fn set_at(v: JsonValue, path: &[Seg], new: JsonValue) -> (r: JsonValue)
    ensures
        r.model() == set_at_from(v.model(), steps(path@), 0, new.model()),
{
    set_at_exec(v, path, 0, new)
}

/// Entry lists with the same keys in the same places find a key at the same
/// index.
proof fn lemma_key_index_same_keys(
    es: Seq<(Seq<char>, Json)>,
    fs: Seq<(Seq<char>, Json)>,
    k: Seq<char>,
    i: int,
)
    requires
        es.len() == fs.len(),
        forall|m: int| 0 <= m < es.len() ==> #[trigger] es[m].0 == fs[m].0,
    ensures
        key_index_from(es, k, i) == key_index_from(fs, k, i),
    decreases es.len() - i,
{
    if 0 <= i < es.len() {
        assert(es[i].0 == fs[i].0);
        lemma_key_index_same_keys(es, fs, k, i + 1);
    }
}

proof fn lemma_set_then_get(v: Json, path: Seq<Step>, i: int, new: Json)
    requires
        0 <= i,
        get_at_from(v, path, i) is Some,
    ensures
        get_at_from(set_at_from(v, path, i, new), path, i) == Some(new),
    decreases path.len() - i,
{
    if i < path.len() {
        match path[i] {
            Step::Key(k) => match v {
                Json::Obj(es) => {
                    let j = key_index(es, k)->Some_0;
                    lemma_key_index_from(es, k, 0);
                    lemma_set_then_get(es[j].1, path, i + 1, new);
                    let fs = es.update(j, (es[j].0, set_at_from(es[j].1, path, i + 1, new)));
                    lemma_key_index_same_keys(es, fs, k, 0);
                },
                _ => {},
            },
            Step::Idx(j) => match v {
                Json::Arr(xs) => {
                    lemma_set_then_get(xs[j], path, i + 1, new);
                },
                _ => {},
            },
        }
    }
}

proof fn lemma_set_missing(v: Json, path: Seq<Step>, i: int, new: Json)
    requires
        0 <= i,
        get_at_from(v, path, i) is None,
    ensures
        set_at_from(v, path, i, new) == v,
    decreases path.len() - i,
{
    if i < path.len() {
        match path[i] {
            Step::Key(k) => match v {
                Json::Obj(es) => {
                    if let Some(j) = key_index(es, k) {
                        lemma_key_index_from(es, k, 0);
                        lemma_set_missing(es[j].1, path, i + 1, new);
                        assert(es.update(j, (es[j].0, es[j].1)) =~= es);
                    }
                },
                _ => {},
            },
            Step::Idx(j) => match v {
                Json::Arr(xs) => {
                    if 0 <= j < xs.len() {
                        lemma_set_missing(xs[j], path, i + 1, new);
                        assert(xs.update(j, xs[j]) =~= xs);
                    }
                },
                _ => {},
            },
        }
    }
}

/// Each object in `v` holds each key once, as every object of a parsed
/// document does.
pub open spec fn keys_unique(v: Json) -> bool
    decreases v,
{
    match v {
        Json::Arr(xs) => forall|i: int| 0 <= i < xs.len() ==> keys_unique(#[trigger] xs[i]),
        Json::Obj(es) => {
            &&& forall|i: int, j: int|
                #![trigger es[i], es[j]]
                0 <= i < j < es.len() ==> es[i].0 != es[j].0
            &&& forall|i: int| 0 <= i < es.len() ==> keys_unique(#[trigger] es[i].1)
        },
        _ => true,
    }
}

/// Following a path from a later position of a longer path is following
/// the path itself.
proof fn lemma_get_shift(v: Json, pre: Seq<Step>, p: Seq<Step>, i: int)
    requires
        0 <= i,
    ensures
        get_at_from(v, pre + p, pre.len() + i) == get_at_from(v, p, i),
    decreases p.len() - i,
{
    if i < p.len() {
        assert((pre + p)[pre.len() + i] == p[i]);
        match p[i] {
            Step::Key(k) => match v.get_key(k) {
                Some(c) => lemma_get_shift(c, pre, p, i + 1),
                None => {},
            },
            Step::Idx(j) => match v.get_idx(j) {
                Some(c) => lemma_get_shift(c, pre, p, i + 1),
                None => {},
            },
        }
    }
}

/// `p` ends with the key `t` and leads to a value in `v`.
pub open spec fn leads_to_key(v: Json, p: Seq<Step>, t: Seq<char>) -> bool {
    p.len() > 0 && p.last() == Step::Key(t) && get_at(v, p) is Some
}

proof fn lemma_found_leads(v: Json, t: Seq<char>)
    requires
        keys_unique(v),
        find_in(v, t) is Some,
    ensures
        leads_to_key(v, find_in(v, t)->Some_0, t),
    decreases v, 0int,
{
    match v {
        Json::Obj(es) => lemma_found_leads_obj(v, es, t, 0),
        Json::Arr(xs) => lemma_found_leads_arr(v, xs, t, 0),
        _ => {},
    }
}

proof fn lemma_found_leads_obj(v: Json, es: Seq<(Seq<char>, Json)>, t: Seq<char>, i: int)
    requires
        v == Json::Obj(es),
        keys_unique(v),
        0 <= i,
        find_in_obj(es, t, i) is Some,
    ensures
        leads_to_key(v, find_in_obj(es, t, i)->Some_0, t),
    decreases es, es.len() - i,
{
    let p = find_in_obj(es, t, i)->Some_0;
    if es[i].0 == t {
        lemma_key_index_from(es, t, 0);
        assert(p =~= seq![Step::Key(t)]);
        let j = key_index(es, t)->Some_0;
        assert(v.get_key(t) == Some(es[j].1));
        assert(get_at_from(es[j].1, p, 1) == Some(es[j].1));
        assert(get_at(v, p) == Some(es[j].1));
    } else {
        match find_in(es[i].1, t) {
            Some(q) => {
                lemma_found_leads(es[i].1, t);
                let k = es[i].0;
                lemma_key_index_from(es, k, 0);
                let j = key_index(es, k)->Some_0;
                if j != i {
                    assert(es[j].0 != es[i].0);
                }
                assert(v.get_key(k) == Some(es[i].1));
                lemma_get_shift(es[i].1, seq![Step::Key(k)], q, 0);
                assert(p == seq![Step::Key(k)] + q);
                assert(p.last() == q.last());
            },
            None => lemma_found_leads_obj(v, es, t, i + 1),
        }
    }
}

proof fn lemma_found_leads_arr(v: Json, xs: Seq<Json>, t: Seq<char>, i: int)
    requires
        v == Json::Arr(xs),
        keys_unique(v),
        0 <= i,
        find_in_arr(xs, t, i) is Some,
    ensures
        leads_to_key(v, find_in_arr(xs, t, i)->Some_0, t),
    decreases xs, xs.len() - i,
{
    let p = find_in_arr(xs, t, i)->Some_0;
    assert(i < xs.len());
    match find_in(xs[i], t) {
        Some(q) => {
            match v {
                Json::Arr(ys) => assert(decreases_to!(v => ys[i])),
                _ => {},
            }
            lemma_found_leads(xs[i], t);
            lemma_get_shift(xs[i], seq![Step::Idx(i)], q, 0);
            assert(p == seq![Step::Idx(i)] + q);
            assert(p.last() == q.last());
        },
        None => lemma_found_leads_arr(v, xs, t, i + 1),
    }
}

/// The path to a key that `find_key_path` gives in a parsed document ends
/// with that key and leads to a value.
pub proof fn law_found_path_leads(v: Json, t: Seq<char>)
    requires
        keys_unique(v),
    ensures
        find_in(v, t) matches Some(p) ==> leads_to_key(v, p, t),
{
    if find_in(v, t) is Some {
        lemma_found_leads(v, t);
    }
}

/// Writing along a later position of a longer path is writing along the
/// path itself.
proof fn lemma_set_shift(v: Json, pre: Seq<Step>, p: Seq<Step>, i: int, new: Json)
    requires
        0 <= i,
    ensures
        set_at_from(v, pre + p, pre.len() + i, new) == set_at_from(v, p, i, new),
    decreases p.len() - i,
{
    if i < p.len() {
        assert((pre + p)[pre.len() + i] == p[i]);
        match p[i] {
            Step::Key(k) => match v {
                Json::Obj(es) => match key_index(es, k) {
                    Some(j) => {
                        lemma_key_index_from(es, k, 0);
                        lemma_set_shift(es[j].1, pre, p, i + 1, new);
                    },
                    None => {},
                },
                _ => {},
            },
            Step::Idx(j) => match v {
                Json::Arr(xs) => if 0 <= j < xs.len() {
                    lemma_set_shift(xs[j], pre, p, i + 1, new);
                },
                _ => {},
            },
        }
    }
}

/// Following `p` after a write below it reaches the written-to value.
proof fn lemma_get_set_below(v: Json, p: Seq<Step>, q: Seq<Step>, i: int, new: Json)
    requires
        0 <= i <= p.len(),
        get_at_from(v, p, i) is Some,
    ensures
        get_at_from(set_at_from(v, p + q, i, new), p, i) == Some(
            set_at_from(get_at_from(v, p, i)->Some_0, q, 0, new),
        ),
    decreases p.len() - i,
{
    if i == p.len() {
        lemma_set_shift(v, p, q, 0, new);
    } else {
        assert((p + q)[i] == p[i]);
        match p[i] {
            Step::Key(k) => match v {
                Json::Obj(es) => {
                    let j = key_index(es, k)->Some_0;
                    lemma_key_index_from(es, k, 0);
                    lemma_get_set_below(es[j].1, p, q, i + 1, new);
                    let fs = es.update(j, (es[j].0, set_at_from(es[j].1, p + q, i + 1, new)));
                    lemma_key_index_same_keys(es, fs, k, 0);
                },
                _ => {},
            },
            Step::Idx(j) => match v {
                Json::Arr(xs) => {
                    lemma_get_set_below(xs[j], p, q, i + 1, new);
                },
                _ => {},
            },
        }
    }
}

proof fn lemma_find_stable(v: Json, t: Seq<char>, q: Seq<Step>, new: Json)
    requires
        keys_unique(v),
        find_in(v, t) is Some,
    ensures
        find_in(set_at_from(v, find_in(v, t)->Some_0 + q, 0, new), t) == find_in(v, t),
    decreases v, 0int,
{
    match v {
        Json::Obj(es) => lemma_find_stable_obj(v, es, t, 0, q, new),
        Json::Arr(xs) => lemma_find_stable_arr(v, xs, t, 0, q, new),
        _ => {},
    }
}

proof fn lemma_find_stable_obj(
    v: Json,
    es: Seq<(Seq<char>, Json)>,
    t: Seq<char>,
    i: int,
    q: Seq<Step>,
    new: Json,
)
    requires
        v == Json::Obj(es),
        keys_unique(v),
        0 <= i,
        find_in_obj(es, t, i) is Some,
    ensures
        ({
            let p = find_in_obj(es, t, i)->Some_0;
            let w = set_at_from(v, p + q, 0, new);
            &&& exists|m: int| i <= m < es.len() && p.len() > 0 && p[0] == Step::Key(#[trigger] es[m].0)
            &&& w is Obj
            &&& find_in_obj(w->Obj_0, t, i) == Some(p)
        }),
    decreases es, es.len() - i,
{
    let p = find_in_obj(es, t, i)->Some_0;
    let w = set_at_from(v, p + q, 0, new);
    if es[i].0 == t {
        assert(p == seq![Step::Key(t)]);
        lemma_key_index_from(es, t, 0);
        let j = key_index(es, t)->Some_0;
        if j != i {
            assert(es[j].0 != es[i].0);
        }
        let fs = es.update(i, (es[i].0, set_at_from(es[i].1, p + q, 1, new)));
        assert(w == Json::Obj(fs));
        assert(fs[i].0 == t);
    } else {
        match find_in(es[i].1, t) {
            Some(pc) => {
                let k = es[i].0;
                assert(p == seq![Step::Key(k)] + pc);
                lemma_key_index_from(es, k, 0);
                let j = key_index(es, k)->Some_0;
                if j != i {
                    assert(es[j].0 != es[i].0);
                }
                assert(p + q == seq![Step::Key(k)] + (pc + q));
                lemma_set_shift(es[i].1, seq![Step::Key(k)], pc + q, 0, new);
                lemma_find_stable(es[i].1, t, q, new);
                let c2 = set_at_from(es[i].1, pc + q, 0, new);
                let fs = es.update(i, (k, c2));
                assert(w == Json::Obj(fs));
                assert(fs[i].1 == c2);
                assert(find_in(c2, t) == Some(pc));
            },
            None => {
                lemma_find_stable_obj(v, es, t, i + 1, q, new);
                let m = choose|m: int| i + 1 <= m < es.len() && p.len() > 0 && p[0] == Step::Key(#[trigger] es[m].0);
                let k = es[m].0;
                lemma_key_index_from(es, k, 0);
                let j = key_index(es, k)->Some_0;
                if j != m {
                    if j < m {
                        assert(es[j].0 != es[m].0);
                    } else {
                        assert(es[m].0 != es[j].0);
                    }
                }
                assert(es[i].0 != es[m].0);
                let fs = es.update(m, (k, set_at_from(es[m].1, p + q, 1, new)));
                assert(w == Json::Obj(fs));
                assert(fs[i] == es[i]);
            },
        }
    }
}

proof fn lemma_find_stable_arr(v: Json, xs: Seq<Json>, t: Seq<char>, i: int, q: Seq<Step>, new: Json)
    requires
        v == Json::Arr(xs),
        keys_unique(v),
        0 <= i,
        find_in_arr(xs, t, i) is Some,
    ensures
        ({
            let p = find_in_arr(xs, t, i)->Some_0;
            let w = set_at_from(v, p + q, 0, new);
            &&& exists|m: int| i <= m < xs.len() && p.len() > 0 && #[trigger] p[0] == Step::Idx(m)
            &&& w is Arr
            &&& find_in_arr(w->Arr_0, t, i) == Some(p)
        }),
    decreases xs, xs.len() - i,
{
    let p = find_in_arr(xs, t, i)->Some_0;
    let w = set_at_from(v, p + q, 0, new);
    assert(i < xs.len());
    match find_in(xs[i], t) {
        Some(pc) => {
            match v {
                Json::Arr(ys) => assert(decreases_to!(v => ys[i])),
                _ => {},
            }
            assert(p == seq![Step::Idx(i)] + pc);
            assert(p + q == seq![Step::Idx(i)] + (pc + q));
            lemma_set_shift(xs[i], seq![Step::Idx(i)], pc + q, 0, new);
            lemma_find_stable(xs[i], t, q, new);
            let c2 = set_at_from(xs[i], pc + q, 0, new);
            let ys = xs.update(i, c2);
            assert(w == Json::Arr(ys));
            assert(ys[i] == c2);
            assert(p[0] == Step::Idx(i));
        },
        None => {
            lemma_find_stable_arr(v, xs, t, i + 1, q, new);
            let m = choose|m: int| i + 1 <= m < xs.len() && p.len() > 0 && #[trigger] p[0] == Step::Idx(m);
            let ys = xs.update(m, set_at_from(xs[m], p + q, 1, new));
            assert(w == Json::Arr(ys));
            assert(ys[i] == xs[i]);
        },
    }
}

/// Following `p + q` is following `p` and then `q`.
pub proof fn lemma_get_concat(v: Json, p: Seq<Step>, q: Seq<Step>, i: int)
    requires
        0 <= i <= p.len(),
    ensures
        get_at_from(v, p + q, i) == match get_at_from(v, p, i) {
            Some(w) => get_at_from(w, q, 0),
            None => None,
        },
    decreases p.len() - i,
{
    if i == p.len() {
        lemma_get_shift(v, p, q, 0);
    } else {
        assert((p + q)[i] == p[i]);
        match p[i] {
            Step::Key(k) => match v.get_key(k) {
                Some(c) => lemma_get_concat(c, p, q, i + 1),
                None => {},
            },
            Step::Idx(j) => match v.get_idx(j) {
                Some(c) => lemma_get_concat(c, p, q, i + 1),
                None => {},
            },
        }
    }
}

/// Writing at a path the value already there gives the document back.
pub proof fn lemma_set_same(v: Json, path: Seq<Step>, i: int)
    requires
        0 <= i,
        get_at_from(v, path, i) is Some,
    ensures
        set_at_from(v, path, i, get_at_from(v, path, i)->Some_0) == v,
    decreases path.len() - i,
{
    if i < path.len() {
        let w = get_at_from(v, path, i)->Some_0;
        match path[i] {
            Step::Key(k) => match v {
                Json::Obj(es) => {
                    let j = key_index(es, k)->Some_0;
                    lemma_key_index_from(es, k, 0);
                    lemma_set_same(es[j].1, path, i + 1);
                    assert(es.update(j, (es[j].0, es[j].1)) =~= es);
                },
                _ => {},
            },
            Step::Idx(j) => match v {
                Json::Arr(xs) => {
                    lemma_set_same(xs[j], path, i + 1);
                    assert(xs.update(j, xs[j]) =~= xs);
                },
                _ => {},
            },
        }
    }
}

/// A write below the path to a key leaves that path where it was: where
/// `find_key_path` finds `t` in a parsed document at `p`, writing anywhere at
/// or below `p` leaves the first `t` at `p`, and following `p` afterwards
/// reaches the value at `p` with the write made in it.
pub proof fn law_write_below_found(v: Json, t: Seq<char>, q: Seq<Step>, new: Json)
    requires
        keys_unique(v),
    ensures
        find_in(v, t) matches Some(p) ==> {
            &&& find_in(set_at_from(v, p + q, 0, new), t) == Some(p)
            &&& get_at(set_at_from(v, p + q, 0, new), p) == Some(
                set_at_from(get_at(v, p)->Some_0, q, 0, new),
            )
        },
{
    if find_in(v, t) is Some {
        let p = find_in(v, t)->Some_0;
        lemma_find_stable(v, t, q, new);
        lemma_found_leads(v, t);
        lemma_get_set_below(v, p, q, 0, new);
    }
}

/// What is written at a path is read back there: where `path` leads to a
/// value, replacing that value by `new` and then following `path` gives
/// `new`; where it leads nowhere, the write leaves the document as it was.
pub proof fn law_set_then_get(v: Json, path: Seq<Step>, new: Json)
    ensures
        get_at(v, path) is Some ==> get_at(set_at_from(v, path, 0, new), path) == Some(new),
        get_at(v, path) is None ==> set_at_from(v, path, 0, new) == v,
{
    if get_at(v, path) is Some {
        lemma_set_then_get(v, path, 0, new);
    } else {
        lemma_set_missing(v, path, 0, new);
    }
}

// ---------------------------------------------------------------------------
// Ordered insertion into an object
// ---------------------------------------------------------------------------

/// First index at or after `i` whose key sorts after `k` (or the length).
pub open spec fn insert_pos_from(es: Seq<(Seq<char>, Json)>, k: Seq<char>, i: int) -> int
    decreases es.len() - i,
{
    if i < 0 || i >= es.len() {
        es.len() as int
    } else if seq_lt(k, es[i].0) {
        i
    } else {
        insert_pos_from(es, k, i + 1)
    }
}

/// Inserting `k: v` into a key-sorted map: an entry with key `k` gets the
/// new value; otherwise the entry goes before the first key that sorts after
/// `k`.
pub open spec fn obj_insert(es: Seq<(Seq<char>, Json)>, k: Seq<char>, v: Json) -> Seq<
    (Seq<char>, Json),
> {
    match key_index(es, k) {
        Some(j) => es.update(j, (k, v)),
        None => es.insert(insert_pos_from(es, k, 0), (k, v)),
    }
}

pub proof fn lemma_insert_pos_from(es: Seq<(Seq<char>, Json)>, k: Seq<char>, i: int)
    requires
        0 <= i <= es.len(),
    ensures
        i <= insert_pos_from(es, k, i) <= es.len(),
    decreases es.len() - i,
{
    if i < es.len() && !seq_lt(k, es[i].0) {
        lemma_insert_pos_from(es, k, i + 1);
    }
}

/// Inserts `key: val` into the entries of an object, as a sorted map does.
pub fn obj_insert_exec(es: &mut Vec<(String, JsonValue)>, key: String, val: JsonValue)
    ensures
        JsonValue::Object(*final(es)).model()->Obj_0 == obj_insert(
            JsonValue::Object(*old(es)).model()->Obj_0,
            key@,
            val.model(),
        ),
{
    let ghost om = JsonValue::Object(*old(es)).model()->Obj_0;
    let ghost ov = *old(es);
    let ghost km = key@;
    let ghost vm = val.model();
    match key_position(es, key.as_str()) {
        Some(j) => {
            let _ = es.remove(j);
            es.insert(j, (key, val));
            proof {
                assert(JsonValue::Object(*es).model()->Obj_0 =~= om.update(j as int, (km, vm))) by {
                    assert forall|m: int| 0 <= m < es@.len() implies #[trigger] JsonValue::Object(*es).model()->Obj_0[m] == om.update(j as int, (km, vm))[m] by {
                        lemma_obj_entry(es, m);
                        lemma_obj_entry(&ov, m);
                    }
                }
            }
        },
        None => {
            let mut i: usize = 0;
            proof {
                lemma_insert_pos_from(om, km, 0);
            }
            while i < es.len() && !str_lt(key.as_str(), es[i].0.as_str())
                invariant
                    *es == ov,
                    om == JsonValue::Object(ov).model()->Obj_0,
                    om.len() == ov@.len(),
                    km == key@,
                    i <= es@.len(),
                    insert_pos_from(om, km, 0) == insert_pos_from(om, km, i as int),
                decreases es@.len() - i,
            {
                proof {
                    lemma_obj_entry(es, i as int);
                }
                i = i + 1;
            }
            proof {
                if i < es@.len() {
                    lemma_obj_entry(es, i as int);
                }
            }
            es.insert(i, (key, val));
            proof {
                assert(JsonValue::Object(*es).model()->Obj_0 =~= om.insert(i as int, (km, vm))) by {
                    assert forall|m: int| 0 <= m < es@.len() implies #[trigger] JsonValue::Object(*es).model()->Obj_0[m] == om.insert(i as int, (km, vm))[m] by {
                        lemma_obj_entry(es, m);
                        if m < i {
                            lemma_obj_entry(&ov, m);
                        } else if m > i {
                            lemma_obj_entry(&ov, m - 1);
                        }
                    }
                }
            }
        },
    }
}

} // verus!
