//! Player bases inside a decoded save: summaries, display names, type
//! counts, and the replacement of one base by an imported one.
use vstd::prelude::*;
use crate::json::{Json, JsonValue, find_in, find_key_path, get_at, get_at_exec, models, opt_model};
use crate::text::{decimal, trim, trim_str, u64_to_string, concat, str_eq};


verus! {

// ---------------------------------------------------------------------------
// Field access
// ---------------------------------------------------------------------------

/// The string at `o`, or `dflt` when there is none.
pub open spec fn str_or(o: Option<Json>, dflt: Seq<char>) -> Seq<char> {
    match o {
        Some(v) => match v.as_str() {
            Some(s) => s,
            None => dflt,
        },
        None => dflt,
    }
}

/// `BaseType.PersistentBaseTypes`, or `Unknown`.
pub open spec fn base_type_spec(b: Json) -> Seq<char> {
    match b.get_key("BaseType"@) {
        Some(t) => str_or(t.get_key("PersistentBaseTypes"@), "Unknown"@),
        None => "Unknown"@,
    }
}

/// Number of entries of `Objects`, or 0.
pub open spec fn objects_count_spec(b: Json) -> nat {
    match b.get_key("Objects"@) {
        Some(o) => match o.as_arr() {
            Some(xs) => xs.len(),
            None => 0,
        },
        None => 0,
    }
}

/// `Owner.UID`, or empty.
pub open spec fn owner_uid_spec(b: Json) -> Seq<char> {
    match b.get_key("Owner"@) {
        Some(o) => str_or(o.get_key("UID"@), Seq::empty()),
        None => Seq::empty(),
    }
}

fn str_or_exec(o: Option<&JsonValue>, dflt: &str) -> (r: String)
    ensures
        r@ == str_or(opt_model(o), dflt@),
{
    proof {
        reveal_strlit("");
    }
    match o {
        Some(v) => match v.as_str() {
            Some(s) => s.clone(),
            None => dflt.to_owned(),
        },
        None => dflt.to_owned(),
    }
}

/// The base's type name.
pub fn base_type_of(base: &JsonValue) -> (r: String)
    ensures
        r@ == base_type_spec(base.model()),
{
    match base.get("BaseType") {
        Some(t) => str_or_exec(t.get("PersistentBaseTypes"), "Unknown"),
        None => "Unknown".to_owned(),
    }
}

/// The number of objects placed in the base.
pub fn base_objects_count(base: &JsonValue) -> (r: usize)
    ensures
        r as nat == objects_count_spec(base.model()),
{
    match base.get("Objects") {
        Some(o) => match o.as_array() {
            Some(xs) => xs.len(),
            None => 0,
        },
        None => 0,
    }
}

/// The owner's UID.
pub fn base_owner_uid(base: &JsonValue) -> (r: String)
    ensures
        r@ == owner_uid_spec(base.model()),
{
    proof {
        reveal_strlit("");
    }
    match base.get("Owner") {
        Some(o) => str_or_exec(o.get("UID"), ""),
        None => "".to_owned(),
    }
}

/// The value at the first `key` found depth-first in `save`.
pub open spec fn value_at_key(save: Json, key: Seq<char>) -> Option<Json> {
    match find_in(save, key) {
        Some(p) => get_at(save, p),
        None => None,
    }
}

/// The array at the first `ShipOwnership` key.
pub open spec fn ships_spec(save: Json) -> Option<Seq<Json>> {
    match value_at_key(save, "ShipOwnership"@) {
        Some(v) => v.as_arr(),
        None => None,
    }
}

/// The list of owned ships, when the save has one.
pub fn ship_ownership_list(save: &JsonValue) -> (r: Option<&Vec<JsonValue>>)
    ensures
        match r {
            Some(xs) => ships_spec(save.model()) == Some(models(xs@)),
            None => ships_spec(save.model()) is None,
        },
{
    match find_key_path(save, "ShipOwnership") {
        Some(p) => match get_at_exec(save, p.as_slice()) {
            Some(v) => v.as_array(),
            None => None,
        },
        None => None,
    }
}

// ---------------------------------------------------------------------------
// Display names
// ---------------------------------------------------------------------------

/// `Corvette #<n> (<objs> objs)`.
pub open spec fn corvette_label(n: nat, objs: nat) -> Seq<char> {
    "Corvette #"@ + decimal(n) + " ("@ + decimal(objs) + " objs)"@
}

/// The trimmed `Name` of the ship at `ud` in `ships`, or empty.
pub open spec fn ship_name_at(ships: Option<Seq<Json>>, ud: u64) -> Seq<char> {
    match ships {
        Some(list) => if (ud as usize) < list.len() {
            trim(str_or(list[(ud as usize) as int].get_key("Name"@), Seq::empty()))
        } else {
            Seq::empty()
        },
        None => Seq::empty(),
    }
}

/// The label a base is listed under. A corvette (`PlayerShipBase`) takes
/// the name of its ship (by `UserData`), else its own name unless that is
/// empty or `Default`, in which case it is numbered; a nameless freighter
/// base is `Freighter Base`; any other nameless base is `Unnamed <idx>`.
pub open spec fn display_name_spec(b: Json, idx: nat, ships: Option<Seq<Json>>) -> Seq<char> {
    let btype = base_type_spec(b);
    let name = trim(str_or(b.get_key("Name"@), Seq::empty()));
    let objs = objects_count_spec(b);
    let general = if name.len() > 0 {
        name
    } else {
        "Unnamed "@ + decimal(idx)
    };
    let ship_fallback = if name.len() > 0 {
        if name == "Default"@ {
            corvette_label(idx, objs)
        } else {
            name
        }
    } else {
        corvette_label(idx, objs)
    };
    if btype == "PlayerShipBase"@ {
        match b.get_key("UserData"@) {
            Some(u) => match u.as_u64() {
                Some(ud) => {
                    let sn = ship_name_at(ships, ud);
                    if sn.len() > 0 {
                        sn
                    } else if name.len() == 0 || name == "Default"@ {
                        corvette_label(ud as nat, objs)
                    } else {
                        ship_fallback
                    }
                },
                None => ship_fallback,
            },
            None => ship_fallback,
        }
    } else if btype == "FreighterBase"@ && name.len() == 0 {
        "Freighter Base"@
    } else {
        general
    }
}

fn corvette_label_exec(n: u64, objs: usize) -> (r: String)
    ensures
        r@ == corvette_label(n as nat, objs as nat),
{
    let a = u64_to_string(n);
    let b = u64_to_string(objs as u64);
    let s1 = concat("Corvette #", a.as_str());
    let s2 = concat(s1.as_str(), " (");
    let s3 = concat(s2.as_str(), b.as_str());
    concat(s3.as_str(), " objs)")
}

fn ship_name_exec(ships: Option<&Vec<JsonValue>>, ud: u64) -> (r: String)
    ensures
        r@ == ship_name_at(
            match ships {
                Some(xs) => Some(models(xs@)),
                None => None,
            },
            ud,
        ),
{
    proof {
        reveal_strlit("");
    }
    match ships {
        Some(list) => {
            let i = ud as usize;
            if i < list.len() {
                let n = str_or_exec(list[i].get("Name"), "");
                trim_str(n.as_str())
            } else {
                "".to_owned()
            }
        },
        None => "".to_owned(),
    }
}

/// The label a base is listed under (see `display_name_spec`).
pub fn base_display_name(base: &JsonValue, idx: usize, ships: Option<&Vec<JsonValue>>) -> (r: String)
    ensures
        r@ == display_name_spec(
            base.model(),
            idx as nat,
            match ships {
                Some(xs) => Some(models(xs@)),
                None => None,
            },
        ),
{
    proof {
        reveal_strlit("");
    }
    let btype = base_type_of(base);
    let raw = str_or_exec(base.get("Name"), "");
    let name = trim_str(raw.as_str());
    let objs = base_objects_count(base);
    let is_default = str_eq(name.as_str(), "Default");
    let name_empty = name.as_str().is_empty();
    if str_eq(btype.as_str(), "PlayerShipBase") {
        let ud_opt = match base.get("UserData") {
            Some(u) => u.as_u64(),
            None => None,
        };
        if let Some(ud) = ud_opt {
            let sn = ship_name_exec(ships, ud);
            if !sn.as_str().is_empty() {
                return sn;
            }
            if name_empty || is_default {
                return corvette_label_exec(ud, objs);
            }
        }
        if !name_empty {
            if is_default {
                return corvette_label_exec(idx as u64, objs);
            }
            return name;
        }
        return corvette_label_exec(idx as u64, objs);
    }
    if str_eq(btype.as_str(), "FreighterBase") && name_empty {
        return "Freighter Base".to_owned();
    }
    if !name_empty {
        return name;
    }
    let n = u64_to_string(idx as u64);
    concat("Unnamed ", n.as_str())
}

// ---------------------------------------------------------------------------
// Summaries
// ---------------------------------------------------------------------------

/// One base as listed to the user.
#[derive(Debug, PartialEq)]
pub struct BaseSummary {
    pub idx: usize,
    pub name: String,
    pub display_name: String,
    pub base_type: String,
    pub objects: usize,
    pub owner_uid: String,
}

/// Model of a base summary.
pub struct SummaryModel {
    pub idx: nat,
    pub name: Seq<char>,
    pub display_name: Seq<char>,
    pub base_type: Seq<char>,
    pub objects: nat,
    pub owner_uid: Seq<char>,
}

impl View for BaseSummary {
    type V = SummaryModel;

    open spec fn view(&self) -> SummaryModel {
        SummaryModel {
            idx: self.idx as nat,
            name: self.name@,
            display_name: self.display_name@,
            base_type: self.base_type@,
            objects: self.objects as nat,
            owner_uid: self.owner_uid@,
        }
    }
}

/// The models of a list of summaries.
pub open spec fn summary_models(s: Seq<BaseSummary>) -> Seq<SummaryModel> {
    Seq::new(s.len(), |i: int| s[i]@)
}

/// The summary of base `b` at position `i`.
pub open spec fn summary_of(b: Json, i: nat, ships: Option<Seq<Json>>) -> SummaryModel {
    SummaryModel {
        idx: i,
        name: str_or(b.get_key("Name"@), Seq::empty()),
        display_name: display_name_spec(b, i, ships),
        base_type: base_type_spec(b),
        objects: objects_count_spec(b),
        owner_uid: owner_uid_spec(b),
    }
}

/// The player's bases: the array at the first `PersistentPlayerBases` key.
pub open spec fn bases_spec(save: Json) -> Result<Seq<Json>, Seq<char>> {
    match find_in(save, "PersistentPlayerBases"@) {
        None => Err("PersistentPlayerBases not found"@),
        Some(p) => match get_at(save, p) {
            Some(v) => match v.as_arr() {
                Some(xs) => Ok(xs),
                None => Err("PersistentPlayerBases is not an array"@),
            },
            None => Err("PersistentPlayerBases is not an array"@),
        },
    }
}

/// The summaries of all bases, in order.
pub open spec fn summaries_spec(save: Json) -> Result<Seq<SummaryModel>, Seq<char>> {
    match bases_spec(save) {
        Ok(xs) => Ok(Seq::new(xs.len(), |i: int| summary_of(xs[i], i as nat, ships_spec(save)))),
        Err(e) => Err(e),
    }
}

fn bases_of(save: &JsonValue) -> (r: Result<&Vec<JsonValue>, String>)
    ensures
        match r {
            Ok(xs) => bases_spec(save.model()) == Ok::<Seq<Json>, Seq<char>>(models(xs@)),
            Err(e) => bases_spec(save.model()) == Err::<Seq<Json>, Seq<char>>(e@),
        },
{
    match find_key_path(save, "PersistentPlayerBases") {
        None => Err("PersistentPlayerBases not found".to_owned()),
        Some(p) => match get_at_exec(save, p.as_slice()) {
            Some(v) => match v.as_array() {
                Some(xs) => Ok(xs),
                None => Err("PersistentPlayerBases is not an array".to_owned()),
            },
            None => Err("PersistentPlayerBases is not an array".to_owned()),
        },
    }
}

/// Lists every base of the save with its index, raw name, display name,
/// type, object count and owner.
pub fn summarize_bases(save: &JsonValue) -> (r: Result<Vec<BaseSummary>, String>)
    ensures
        match r {
            Ok(v) => summaries_spec(save.model()) == Ok::<Seq<SummaryModel>, Seq<char>>(summary_models(v@)),
            Err(e) => summaries_spec(save.model()) == Err::<Seq<SummaryModel>, Seq<char>>(e@),
        },
{
    proof {
        reveal_strlit("");
    }
    let bases = match bases_of(save) {
        Ok(b) => b,
        Err(e) => return Err(e),
    };
    let ships = ship_ownership_list(save);
    let ghost sm = match ships {
        Some(xs) => Some(models(xs@)),
        None => None,
    };
    assert(sm == ships_spec(save.model()));
    let mut out: Vec<BaseSummary> = Vec::new();
    let mut i: usize = 0;
    while i < bases.len()
        invariant
            i <= bases@.len(),
            out@.len() == i,
            sm == ships_spec(save.model()),
            sm == match ships {
                Some(xs) => Some(models(xs@)),
                None => None,
            },
            forall|j: int| 0 <= j < i ==> #[trigger] out@[j]@ == summary_of(bases@[j].model(), j as nat, sm),
        decreases bases@.len() - i,
    {
        let b = &bases[i];
        let name = str_or_exec(b.get("Name"), "");
        let s = BaseSummary {
            idx: i,
            name,
            display_name: base_display_name(b, i, ships),
            base_type: base_type_of(b),
            objects: base_objects_count(b),
            owner_uid: base_owner_uid(b),
        };
        let ghost sv = s@;
        let ghost bm = bases@[i as int].model();
        proof {
            reveal_strlit("");
        }
        assert(sv.name == str_or(bm.get_key("Name"@), Seq::empty()));
        assert(sv.display_name == display_name_spec(bm, i as nat, sm));
        assert(sv.base_type == base_type_spec(bm));
        assert(sv.objects == objects_count_spec(bm));
        assert(sv.owner_uid == owner_uid_spec(bm));
        assert(sv == summary_of(bases@[i as int].model(), i as nat, sm));
        out.push(s);
        i = i + 1;
    }
    proof {
        let xs = models(bases@);
        assert(summary_models(out@) =~= Seq::new(xs.len(), |i: int| summary_of(xs[i], i as nat, ships_spec(save.model()))));
    }
    Ok(out)
}

// ---------------------------------------------------------------------------
// Type counts
// ---------------------------------------------------------------------------

/// How many bases of each kind, and all their objects.
#[derive(Debug, PartialEq)]
pub struct TypeCounts {
    pub ship: usize,
    pub planet: usize,
    pub freighter: usize,
    pub space: usize,
    pub total_objs: usize,
}

/// Planetary base types.
pub open spec fn is_planetary(t: Seq<char>) -> bool {
    t == "HomePlanetBase"@ || t == "ExternalPlanetBase"@
}

/// Counts over `s` as `(ship, planet, freighter, space, total objects)`.
pub open spec fn counts_spec(s: Seq<SummaryModel>) -> (nat, nat, nat, nat, nat)
    decreases s.len(),
{
    if s.len() == 0 {
        (0, 0, 0, 0, 0)
    } else {
        let c = counts_spec(s.drop_last());
        let t = s.last().base_type;
        let objs = (c.4 + s.last().objects) as nat;
        if t == "PlayerShipBase"@ {
            ((c.0 + 1) as nat, c.1, c.2, c.3, objs)
        } else if is_planetary(t) {
            (c.0, (c.1 + 1) as nat, c.2, c.3, objs)
        } else if t == "FreighterBase"@ {
            (c.0, c.1, (c.2 + 1) as nat, c.3, objs)
        } else if t == "PlayerSpaceBase"@ {
            (c.0, c.1, c.2, (c.3 + 1) as nat, objs)
        } else {
            (c.0, c.1, c.2, c.3, objs)
        }
    }
}

proof fn lemma_counts_bounded(s: Seq<SummaryModel>)
    ensures
        counts_spec(s).0 + counts_spec(s).1 + counts_spec(s).2 + counts_spec(s).3 <= s.len(),
    decreases s.len(),
{
    if s.len() > 0 {
        lemma_counts_bounded(s.drop_last());
    }
}

proof fn lemma_objs_mono(s: Seq<SummaryModel>, i: int)
    requires
        0 <= i <= s.len(),
    ensures
        counts_spec(s.subrange(0, i)).4 <= counts_spec(s).4,
    decreases s.len() - i,
{
    if i < s.len() {
        lemma_objs_mono(s, i + 1);
        assert(s.subrange(0, i + 1).drop_last() =~= s.subrange(0, i));
    } else {
        assert(s.subrange(0, i) =~= s);
    }
}

/// Counting is additive: the counts of two lists of bases one after the
/// other are the sums of their counts, type by type and for the objects.
pub proof fn law_counts_concat(a: Seq<SummaryModel>, b: Seq<SummaryModel>)
    ensures
        counts_spec(a + b) == (
            (counts_spec(a).0 + counts_spec(b).0) as nat,
            (counts_spec(a).1 + counts_spec(b).1) as nat,
            (counts_spec(a).2 + counts_spec(b).2) as nat,
            (counts_spec(a).3 + counts_spec(b).3) as nat,
            (counts_spec(a).4 + counts_spec(b).4) as nat,
        ),
    decreases b.len(),
{
    if b.len() == 0 {
        assert(a + b =~= a);
    } else {
        law_counts_concat(a, b.drop_last());
        assert((a + b).drop_last() =~= a + b.drop_last());
        assert((a + b).last() == b.last());
    }
}

/// One base counts once, under its type (a corvette, a planetary base, a
/// freighter base, a space base, or none of these), and adds all its
/// objects to the total whatever its type.
pub proof fn law_counts_single(m: SummaryModel)
    ensures
        counts_spec(seq![m]) == (
            if m.base_type == "PlayerShipBase"@ { 1nat } else { 0nat },
            if m.base_type == "HomePlanetBase"@ || m.base_type == "ExternalPlanetBase"@ { 1nat } else { 0nat },
            if m.base_type == "FreighterBase"@ { 1nat } else { 0nat },
            if m.base_type == "PlayerSpaceBase"@ { 1nat } else { 0nat },
            m.objects,
        ),
{
    reveal_strlit("PlayerShipBase");
    reveal_strlit("HomePlanetBase");
    reveal_strlit("ExternalPlanetBase");
    reveal_strlit("FreighterBase");
    reveal_strlit("PlayerSpaceBase");
    assert("PlayerShipBase"@[0] != "HomePlanetBase"@[0]);
    assert(seq![m].drop_last() =~= Seq::<SummaryModel>::empty());
    assert(seq![m].last() == m);
    assert(counts_spec(Seq::<SummaryModel>::empty()) == (0nat, 0nat, 0nat, 0nat, 0nat));
    assert("PlayerShipBase"@.len() == 14 && "HomePlanetBase"@.len() == 14 && "ExternalPlanetBase"@.len() == 18);
    assert("FreighterBase"@.len() == 13 && "PlayerSpaceBase"@.len() == 15);
}

/// How a base is listed. A base that is not a corvette and has a name
/// (once trimmed) is listed under that name; a nameless freighter base is
/// `Freighter Base`; any other nameless base that is not a corvette is
/// `Unnamed <idx>`. A corvette whose ship (by `UserData`) has a name is
/// listed under the ship's name; otherwise under its own name, unless that
/// is empty or `Default`, when it is numbered by its `UserData` (or, with
/// none, its position) with its object count.
pub proof fn law_display_name(b: Json, idx: nat, ships: Option<Seq<Json>>)
    ensures
        ({
            let name = trim(str_or(b.get_key("Name"@), Seq::empty()));
            let t = base_type_spec(b);
            let shown = display_name_spec(b, idx, ships);
            &&& t != "PlayerShipBase"@ && name.len() > 0 ==> shown == name
            &&& t == "FreighterBase"@ && name.len() == 0 ==> shown == "Freighter Base"@
            &&& t != "PlayerShipBase"@ && t != "FreighterBase"@ && name.len() == 0 ==> shown == "Unnamed "@ + decimal(idx)
            &&& t == "PlayerShipBase"@ ==> (b.get_key("UserData"@) matches Some(u) ==> (u.as_u64() matches Some(ud) ==> (
                ship_name_at(ships, ud).len() > 0 ==> shown == ship_name_at(ships, ud))))
            &&& t == "PlayerShipBase"@ && name.len() > 0 && name != "Default"@ && !(b.get_key("UserData"@) matches Some(u)
                && u.as_u64() matches Some(ud) && ship_name_at(ships, ud).len() > 0) ==> shown == name
            &&& t == "PlayerShipBase"@ && (name.len() == 0 || name == "Default"@) ==> (match b.get_key("UserData"@) {
                Some(u) => match u.as_u64() {
                    Some(ud) => ship_name_at(ships, ud).len() == 0 ==> shown == corvette_label(ud as nat, objects_count_spec(b)),
                    None => shown == corvette_label(idx, objects_count_spec(b)),
                },
                None => shown == corvette_label(idx, objects_count_spec(b)),
            })
        }),
{
    reveal_strlit("PlayerShipBase");
    reveal_strlit("FreighterBase");
    let name = trim(str_or(b.get_key("Name"@), Seq::empty()));
    let t = base_type_spec(b);
    let shown = display_name_spec(b, idx, ships);
    assert(t != "PlayerShipBase"@ && name.len() > 0 ==> shown == name);
    assert("FreighterBase"@.len() == 13 && "PlayerShipBase"@.len() == 14);
    assert(t == "FreighterBase"@ && name.len() == 0 ==> shown == "Freighter Base"@);
    assert(t != "PlayerShipBase"@ && t != "FreighterBase"@ && name.len() == 0 ==> shown == "Unnamed "@ + decimal(idx));
}

/// Tallies bases by type (ships, planetary, freighter, space) and sums
/// their objects. The object total must fit in a `usize`.
pub fn count_types(summaries: &[BaseSummary]) -> (c: TypeCounts)
    requires
        counts_spec(summary_models(summaries@)).4 <= usize::MAX,
    ensures
        (c.ship as nat, c.planet as nat, c.freighter as nat, c.space as nat, c.total_objs as nat)
            == counts_spec(summary_models(summaries@)),
{
    let ghost s = summary_models(summaries@);
    let mut c = TypeCounts { ship: 0, planet: 0, freighter: 0, space: 0, total_objs: 0 };
    let mut i: usize = 0;
    while i < summaries.len()
        invariant
            s == summary_models(summaries@),
            i <= s.len(),
            counts_spec(s).4 <= usize::MAX,
            (c.ship as nat, c.planet as nat, c.freighter as nat, c.space as nat, c.total_objs as nat)
                == counts_spec(s.subrange(0, i as int)),
        decreases s.len() - i,
    {
        let ghost pre = s.subrange(0, i as int);
        let ghost nxt = s.subrange(0, i + 1);
        proof {
            assert(nxt.drop_last() =~= pre);
            assert(nxt.last() == summaries@[i as int]@);
            lemma_objs_mono(s, i + 1);
            lemma_counts_bounded(nxt);
        }
        let sm = &summaries[i];
        c.total_objs = c.total_objs + sm.objects;
        let t = sm.base_type.as_str();
        if str_eq(t, "PlayerShipBase") {
            c.ship = c.ship + 1;
        } else if str_eq(t, "HomePlanetBase") || str_eq(t, "ExternalPlanetBase") {
            c.planet = c.planet + 1;
        } else if str_eq(t, "FreighterBase") {
            c.freighter = c.freighter + 1;
        } else if str_eq(t, "PlayerSpaceBase") {
            c.space = c.space + 1;
        }
        i = i + 1;
    }
    assert(s.subrange(0, s.len() as int) =~= s);
    c
}

/// The characters of an optional string.
pub open spec fn opt_str(o: Option<String>) -> Option<Seq<char>> {
    match o {
        Some(s) => Some(s@),
        None => None,
    }
}

/// Keeps the bases a list filter selects: `PlayerShipBase` keeps corvettes,
/// `PLANETARY` keeps planetary bases, anything else keeps all.
pub open spec fn filter_keeps(filter: Option<Seq<char>>, t: Seq<char>) -> bool {
    match filter {
        Some(f) => if f == "PlayerShipBase"@ {
            t == "PlayerShipBase"@
        } else if f == "PLANETARY"@ {
            is_planetary(t)
        } else {
            true
        },
        None => true,
    }
}

/// The summaries a filter keeps, in order.
pub open spec fn filtered(s: Seq<SummaryModel>, filter: Option<Seq<char>>) -> Seq<SummaryModel>
    decreases s.len(),
{
    if s.len() == 0 {
        s
    } else if filter_keeps(filter, s.last().base_type) {
        filtered(s.drop_last(), filter).push(s.last())
    } else {
        filtered(s.drop_last(), filter)
    }
}

/// Applies a base-list filter (see `filter_keeps`).
pub fn filter_bases(bases: Vec<BaseSummary>, filter: Option<String>) -> (r: Vec<BaseSummary>)
    ensures
        summary_models(r@) == filtered(summary_models(bases@), opt_str(filter)),
{
    let ghost fm = opt_str(filter);
    let ghost s = summary_models(bases@);
    let kind: u8 = match &filter {
        Some(f) => if str_eq(f.as_str(), "PlayerShipBase") {
            0
        } else if str_eq(f.as_str(), "PLANETARY") {
            1
        } else {
            2
        },
        None => 2,
    };
    let mut out: Vec<BaseSummary> = Vec::new();
    let n: usize = bases.len();
    let mut rest = bases;
    let mut i: usize = 0;
    while rest.len() > 0
        invariant
            s.len() == n,
            i + rest@.len() == n,
            forall|j: int| 0 <= j < rest@.len() ==> #[trigger] rest@[j]@ == s[i + j],
            summary_models(out@) == filtered(s.subrange(0, i as int), fm),
            kind <= 2,
            kind == 0 ==> fm == Some("PlayerShipBase"@),
            kind == 1 ==> fm == Some("PLANETARY"@),
            kind == 2 ==> forall|t: Seq<char>| filter_keeps(fm, t),
        decreases rest@.len(),
    {
        let ghost pre = s.subrange(0, i as int);
        let ghost old_rest = rest@;
        assert(old_rest[0]@ == s[i as int + 0]);
        let b = rest.remove(0);
        proof {
            assert(s.subrange(0, i + 1).drop_last() =~= pre);
            assert(s.subrange(0, i + 1).last() == b@);
        }
        let keep = if kind == 0 {
            str_eq(b.base_type.as_str(), "PlayerShipBase")
        } else if kind == 1 {
            str_eq(b.base_type.as_str(), "HomePlanetBase") || str_eq(b.base_type.as_str(), "ExternalPlanetBase")
        } else {
            true
        };
        let ghost before = out@;
        let ghost bm = b@;
        proof {
            reveal_strlit("PLANETARY");
            reveal_strlit("PlayerShipBase");
            assert("PLANETARY"@[1] != "PlayerShipBase"@[1]);
            if kind == 0 {
                assert(keep == filter_keeps(fm, bm.base_type));
            } else if kind == 1 {
                assert(fm->0 != "PlayerShipBase"@);
                assert(keep == filter_keeps(fm, bm.base_type));
            } else {
                assert(keep == filter_keeps(fm, bm.base_type));
            }
            assert(filtered(s.subrange(0, i + 1), fm) == if filter_keeps(fm, bm.base_type) {
                filtered(pre, fm).push(bm)
            } else {
                filtered(pre, fm)
            });
        }
        if keep {
            out.push(b);
            assert(summary_models(out@) =~= summary_models(before).push(bm));
        }
        i = i + 1;
        proof {
            assert forall|j: int| 0 <= j < rest@.len() implies #[trigger] rest@[j]@ == s[i + j] by {
                assert(rest@[j] == old_rest[j + 1]);
                assert(old_rest[j + 1]@ == s[(i - 1) + (j + 1)]);
            }
        }
    }
    assert(s.subrange(0, n as int) =~= s);
    out
}

} // verus!
