//! Deploying the store's mods into the game's mods folder, in load order.
//!
//! Each deployed entry is named with a zero-padded position (`01_`, `002_`,
//! ...) so the game loads them in order; before a deploy, every entry of the
//! mods folder that is a symlink or carries such a prefix is cleared.
use vstd::prelude::*;
use crate::text::{
    starts_with, chars_of, concat, decimal, digit_char, string_from_chars, u64_to_string, str_eq,
    seq_lt, seq_lt_from, lemma_seq_lt_extend,
};
use crate::paths::{file_name_of, file_name_spec};
use crate::store::{Mod, ModModel, mod_models};

verus! {

// ---------------------------------------------------------------------------
// Clearing old entries
// ---------------------------------------------------------------------------

/// What `^\d{2,3}[_-]` answers for `s`.
pub uninterp spec fn deploy_prefix_match(s: Seq<char>) -> bool;

/// An ASCII digit.
pub open spec fn ascii_digit(c: char) -> bool {
    '0' <= c && c <= '9'
}

/// `_` or `-`.
pub open spec fn prefix_sep(c: char) -> bool {
    c == '_' || c == '-'
}

/// `s` starts with two or three ASCII digits and then `_` or `-`.
pub open spec fn ascii_order_prefix(s: Seq<char>) -> bool {
    ||| s.len() >= 3 && ascii_digit(s[0]) && ascii_digit(s[1]) && prefix_sep(s[2])
    ||| s.len() >= 4 && ascii_digit(s[0]) && ascii_digit(s[1]) && ascii_digit(s[2]) && prefix_sep(s[3])
}

/// `s` is empty or starts with an ASCII character that is not a digit.
pub open spec fn not_digit_led(s: Seq<char>) -> bool {
    s.len() == 0 || ((s[0] as u32) < 128 && !ascii_digit(s[0]))
}

/// What `^\d{2,3}[_-]` answers for `s`, as far as it is stated: yes for two
/// or three ASCII digits and `_` or `-`; no for a name shorter than three
/// characters or not led by a digit; else `deploy_prefix_match`.
pub open spec fn order_prefix(s: Seq<char>) -> bool {
    if ascii_order_prefix(s) {
        true
    } else if s.len() < 3 || not_digit_led(s) {
        false
    } else {
        deploy_prefix_match(s)
    }
}

/// Calls `regex::Regex::new(r"^\d{2,3}[_-]")` and `is_match(name)`. Trusted:
/// the answer is `deploy_prefix_match(name)`; it is yes for a name that
/// starts with two or three ASCII digits followed by `_` or `-` (ASCII digits
/// are among the decimal digits `\d` stands for), and no for a name shorter
/// than three characters or whose first character is an ASCII non-digit
/// (the pattern is anchored at the start and needs at least three
/// characters, the first a decimal digit; the only ASCII decimal digits are
/// `0`-`9`). The pattern is a constant that compiles, so the `unwrap` does
/// not fail.
#[verifier::external_body]
fn order_prefix_regex(name: &str) -> (r: bool)
    ensures
        r == deploy_prefix_match(name@),
        ascii_order_prefix(name@) ==> r,
        name@.len() < 3 || not_digit_led(name@) ==> !r,
{
    regex::Regex::new(r"^\d{2,3}[_-]").unwrap().is_match(name)
}

/// `n` left-padded with `0` to width `w` (`format!("{:0w$}", n)`).
pub open spec fn zero_pad(d: Seq<char>, w: nat) -> Seq<char> {
    if d.len() >= w {
        d
    } else {
        Seq::new((w - d.len()) as nat, |i: int| '0') + d
    }
}

/// The prefix of the entry at position `idx` of `count`: the 1-based
/// position, two digits wide below 100 entries, else three, then `_`.
pub open spec fn deploy_prefix_spec(idx: nat, count: nat) -> Seq<char> {
    zero_pad(decimal(idx + 1), if count < 100 { 2 } else { 3 }) + seq!['_']
}

/// `s` is a name a deploy of at most 999 entries gives.
pub open spec fn is_deployed_name(s: Seq<char>) -> bool {
    exists|idx: nat, count: nat|
        idx < count <= 999 && starts_with(s, #[trigger] deploy_prefix_spec(idx, count))
}

/// Before a deploy, an entry of the mods folder is cleared when it is a
/// symlink or its name has an order prefix; `DISABLEMODS.txt` never is.
pub open spec fn should_clear_spec(name: Seq<char>, is_link: bool) -> bool {
    name != "DISABLEMODS.txt"@ && (is_link || order_prefix(name))
}

proof fn lemma_decimal_digits(n: nat)
    ensures
        forall|i: int| 0 <= i < decimal(n).len() ==> ascii_digit(#[trigger] decimal(n)[i]),
        decimal(n).len() >= 1,
        n < 100 ==> decimal(n).len() <= 2,
        n < 1000 ==> decimal(n).len() <= 3,
    decreases n,
{
    assert forall|d: nat| d < 10 implies ascii_digit(#[trigger] digit_char(d)) by {
        assert(((d + 48) as u8) as char == digit_char(d));
        assert(((d + 48) as u8) as u32 == d + 48);
    }
    if n >= 10 {
        lemma_decimal_digits(n / 10);
        assert(digit_char(n % 10) == decimal(n).last());
    }
}

/// The prefix of a deploy of at most 999 entries is two or three ASCII
/// digits and `_`.
pub proof fn lemma_prefix_shape(idx: nat, count: nat)
    requires
        idx < count <= 999,
    ensures
        ({
            let w: int = if count < 100 { 2 } else { 3 };
            let pre = deploy_prefix_spec(idx, count);
            &&& pre.len() == w + 1
            &&& forall|i: int| 0 <= i < w ==> ascii_digit(#[trigger] pre[i])
            &&& pre[w] == '_'
        }),
{
    lemma_decimal_digits(idx + 1);
    let d = decimal(idx + 1);
    let w: nat = if count < 100 { 2 } else { 3 };
    let p = zero_pad(d, w);
    assert(p.len() == w);
    assert forall|i: int| 0 <= i < w implies ascii_digit(#[trigger] p[i]) by {
        if d.len() < w && i < w - d.len() {
        } else if d.len() < w {
            assert(p[i] == d[i - (w - d.len())]);
        }
    }
    let pre = deploy_prefix_spec(idx, count);
    assert forall|i: int| 0 <= i < w implies ascii_digit(#[trigger] pre[i]) by {
        assert(pre[i] == p[i]);
    }
}

proof fn lemma_deployed_has_prefix(s: Seq<char>)
    requires
        is_deployed_name(s),
    ensures
        ascii_order_prefix(s),
{
    let (idx, count) = choose|idx: nat, count: nat|
        idx < count <= 999 && starts_with(s, #[trigger] deploy_prefix_spec(idx, count));
    lemma_prefix_shape(idx, count);
    let pre = deploy_prefix_spec(idx, count);
    let w: int = if count < 100 { 2 } else { 3 };
    assert(s.subrange(0, pre.len() as int) == pre);
    assert(s[w] == pre[w]);
    assert(s[0] == pre[0] && s[1] == pre[1]);
    assert(ascii_digit(pre[0]) && ascii_digit(pre[1]));
    if w == 3 {
        assert(s[2] == pre[2]);
        assert(ascii_digit(pre[2]));
    }
}

proof fn lemma_digit_code(d: nat)
    requires
        d < 10,
    ensures
        digit_char(d) as u32 == d + 48,
{
    assert(((d + 48) as u8) as u32 == d + 48);
}

/// The digits of `n` in exactly `w` places (`w` being 2 or 3).
pub open spec fn fixed_digits(n: nat, w: nat) -> Seq<char> {
    if w == 2 {
        seq![digit_char(n / 10), digit_char(n % 10)]
    } else {
        seq![digit_char(n / 100), digit_char((n / 10) % 10), digit_char(n % 10)]
    }
}

proof fn lemma_zero_pad_fixed(n: nat, w: nat)
    requires
        w == 2 || w == 3,
        w == 2 ==> n < 100,
        w == 3 ==> n < 1000,
    ensures
        zero_pad(decimal(n), w) == fixed_digits(n, w),
{
    assert(digit_char(0) == '0') by {
        assert(((0nat + 48) as u8) as char == '0');
    }
    if n < 10 {
        assert(decimal(n) == seq![digit_char(n)]);
        assert(n / 10 == 0 && n % 10 == n && n / 100 == 0 && (n / 10) % 10 == 0);
        assert(zero_pad(decimal(n), w) =~= fixed_digits(n, w));
    } else if n < 100 {
        assert(decimal(n / 10) == seq![digit_char(n / 10)]);
        assert(decimal(n) =~= seq![digit_char(n / 10), digit_char(n % 10)]);
        assert(n / 100 == 0 && (n / 10) % 10 == n / 10);
        assert(zero_pad(decimal(n), w) =~= fixed_digits(n, w));
    } else {
        let m = n / 10;
        assert(10 <= m < 100);
        assert(decimal(m / 10) == seq![digit_char(m / 10)]);
        assert(decimal(m) =~= seq![digit_char(m / 10), digit_char(m % 10)]);
        assert(m / 10 == n / 100);
        assert(decimal(n) =~= seq![digit_char(n / 100), digit_char((n / 10) % 10), digit_char(n % 10)]);
        assert(zero_pad(decimal(n), w) =~= fixed_digits(n, w));
    }
}

proof fn lemma_fixed_digits_order(a: nat, b: nat, w: nat)
    requires
        w == 2 || w == 3,
        a < b,
        w == 2 ==> b < 100,
        w == 3 ==> b < 1000,
    ensures
        seq_lt(fixed_digits(a, w), fixed_digits(b, w)),
{
    let fa = fixed_digits(a, w);
    let fb = fixed_digits(b, w);
    if w == 2 {
        lemma_digit_code(a / 10);
        lemma_digit_code(b / 10);
        lemma_digit_code(a % 10);
        lemma_digit_code(b % 10);
        if a / 10 == b / 10 {
            assert(a % 10 < b % 10);
            assert(seq_lt_from(fa, fb, 1));
        } else {
            assert(a / 10 < b / 10);
        }
    } else {
        lemma_digit_code(a / 100);
        lemma_digit_code(b / 100);
        lemma_digit_code((a / 10) % 10);
        lemma_digit_code((b / 10) % 10);
        lemma_digit_code(a % 10);
        lemma_digit_code(b % 10);
        if a / 100 == b / 100 {
            if (a / 10) % 10 == (b / 10) % 10 {
                assert(a / 10 == b / 10);
                assert(a % 10 < b % 10);
                assert(seq_lt_from(fa, fb, 2));
                assert(seq_lt_from(fa, fb, 1));
            } else {
                assert(a / 10 < b / 10);
                assert((a / 10) % 10 < (b / 10) % 10);
                assert(seq_lt_from(fa, fb, 1));
            }
        } else {
            assert(a / 100 < b / 100);
        }
    }
}

/// Bottom in the list wins: in a deploy of at most 999 entries, the name of
/// the entry at a position sorts before the name of every entry after it,
/// whatever follows the prefixes, so the game loads the entries in list
/// order and the later of two overlapping mods is loaded last.
pub proof fn law_deploy_load_order(i: nat, j: nat, count: nat, a: Seq<char>, b: Seq<char>)
    requires
        i < j < count <= 999,
    ensures
        seq_lt(deploy_prefix_spec(i, count) + a, deploy_prefix_spec(j, count) + b),
{
    let w: nat = if count < 100 { 2 } else { 3 };
    lemma_zero_pad_fixed(i + 1, w);
    lemma_zero_pad_fixed(j + 1, w);
    lemma_fixed_digits_order(i + 1, j + 1, w);
    let fi = fixed_digits(i + 1, w);
    let fj = fixed_digits(j + 1, w);
    lemma_seq_lt_extend(fi, fj, seq!['_'] + a, seq!['_'] + b);
    assert(deploy_prefix_spec(i, count) + a =~= fi + (seq!['_'] + a));
    assert(deploy_prefix_spec(j, count) + b =~= fj + (seq!['_'] + b));
}

/// Whether an entry of the mods folder is cleared before a deploy (see
/// `should_clear_spec`). Every name a deploy of at most 999 entries gives is
/// cleared by the next deploy.
pub fn should_clear(name: &str, is_link: bool) -> (r: bool)
    ensures
        r == should_clear_spec(name@, is_link),
        is_deployed_name(name@) ==> r,
        !is_link && (name@.len() < 3 || not_digit_led(name@)) ==> !r,
{
    let has_prefix = order_prefix_regex(name);
    proof {
        if is_deployed_name(name@) {
            lemma_deployed_has_prefix(name@);
            reveal_strlit("DISABLEMODS.txt");
            assert(!ascii_digit("DISABLEMODS.txt"@[0]));
        }
    }
    !str_eq(name, "DISABLEMODS.txt") && (is_link || has_prefix)
}

// ---------------------------------------------------------------------------
// Names of deployed entries
// ---------------------------------------------------------------------------

fn zero_pad_exec(d: String, w: usize) -> (r: String)
    ensures
        r@ == zero_pad(d@, w as nat),
{
    let v = chars_of(d.as_str());
    if v.len() >= w {
        return d;
    }
    let k = w - v.len();
    let mut out: Vec<char> = Vec::new();
    let mut i: usize = 0;
    while i < k
        invariant
            i <= k,
            out@ == Seq::new(i as nat, |j: int| '0'),
        decreases k - i,
    {
        out.push('0');
        i = i + 1;
        assert(out@ =~= Seq::new(i as nat, |j: int| '0'));
    }
    let mut j: usize = 0;
    let ghost zeros = out@;
    while j < v.len()
        invariant
            j <= v@.len(),
            v@ == d@,
            zeros == Seq::new(k as nat, |q: int| '0'),
            out@ == zeros + v@.subrange(0, j as int),
        decreases v@.len() - j,
    {
        out.push(v[j]);
        j = j + 1;
        assert(out@ =~= zeros + v@.subrange(0, j as int));
    }
    assert(v@.subrange(0, v@.len() as int) =~= v@);
    string_from_chars(out.as_slice())
}

/// The order prefix of position `idx` of `count` (see `deploy_prefix_spec`).
pub fn deploy_prefix(idx: usize, count: usize) -> (r: String)
    requires
        idx < count,
    ensures
        r@ == deploy_prefix_spec(idx as nat, count as nat),
{
    let d = u64_to_string((idx + 1) as u64);
    let w: usize = if count < 100 { 2 } else { 3 };
    let p = zero_pad_exec(d, w);
    proof {
        reveal_strlit("_");
        assert("_"@ =~= seq!['_']);
    }
    concat(p.as_str(), "_")
}

/// One step of a deploy, in load order.
#[derive(Debug, PartialEq)]
pub enum DeployStep {
    /// Place `source` into the mods folder as `dest_name`.
    Place { id: String, source: String, dest_name: String },
    /// The id is not in the store.
    Missing { message: String },
}

/// Model of a deploy step.
pub enum StepModel {
    Place { id: Seq<char>, source: Seq<char>, dest_name: Seq<char> },
    Missing { message: Seq<char> },
}

impl View for DeployStep {
    type V = StepModel;

    open spec fn view(&self) -> StepModel {
        match self {
            DeployStep::Place { id, source, dest_name } => StepModel::Place {
                id: id@,
                source: source@,
                dest_name: dest_name@,
            },
            DeployStep::Missing { message } => StepModel::Missing { message: message@ },
        }
    }
}

/// Index of the last mod with id `id` among the first `n`.
pub open spec fn last_with_id(mods: Seq<ModModel>, id: Seq<char>, n: int) -> Option<int>
    decreases n,
{
    if n <= 0 || n > mods.len() {
        None
    } else if mods[n - 1].id == id {
        Some(n - 1)
    } else {
        last_with_id(mods, id, n - 1)
    }
}

/// The name a mod is deployed under: the order prefix, then the file name
/// of a `pak` mod's file, or the id of a folder mod.
pub open spec fn deployed_name(idx: nat, count: nat, id: Seq<char>, m: ModModel) -> Seq<char> {
    deploy_prefix_spec(idx, count) + if m.kind == "pak"@ {
        match file_name_spec(m.source_path) {
            Some(f) => f,
            None => Seq::empty(),
        }
    } else {
        id
    }
}

/// The step for id `id` at position `idx` of `count`; a mod listed twice
/// under one id is taken from its last listing.
pub open spec fn step_spec(idx: nat, count: nat, id: Seq<char>, mods: Seq<ModModel>) -> StepModel {
    match last_with_id(mods, id, mods.len() as int) {
        Some(j) => StepModel::Place {
            id,
            source: mods[j].source_path,
            dest_name: deployed_name(idx, count, id, mods[j]),
        },
        None => StepModel::Missing { message: id + ": not found in store"@ },
    }
}

/// The steps of deploying `ids` in order.
pub open spec fn deploy_steps(ids: Seq<Seq<char>>, mods: Seq<ModModel>) -> Seq<StepModel> {
    Seq::new(ids.len(), |i: int| step_spec(i as nat, ids.len(), ids[i], mods))
}

/// The views of a list of strings.
pub open spec fn views(s: Seq<String>) -> Seq<Seq<char>> {
    Seq::new(s.len(), |i: int| s[i]@)
}

/// The views of a list of steps.
pub open spec fn step_views(s: Seq<DeployStep>) -> Seq<StepModel> {
    Seq::new(s.len(), |i: int| s[i]@)
}

fn last_with_id_exec(mods: &Vec<Mod>, id: &str) -> (r: Option<usize>)
    ensures
        match r {
            Some(j) => last_with_id(mod_models(mods@), id@, mods@.len() as int) == Some(j as int) && j < mods@.len(),
            None => last_with_id(mod_models(mods@), id@, mods@.len() as int) is None,
        },
{
    let ghost mm = mod_models(mods@);
    let mut k: usize = mods.len();
    while k > 0
        invariant
            k <= mods@.len(),
            mm == mod_models(mods@),
            last_with_id(mm, id@, mods@.len() as int) == last_with_id(mm, id@, k as int),
        decreases k,
    {
        if str_eq(mods[k - 1].id.as_str(), id) {
            return Some(k - 1);
        }
        k = k - 1;
    }
    None
}

/// Plans a deploy of `ids` (in load order) from the store listing `mods`.
pub fn deploy_plan(ids: &Vec<String>, mods: &Vec<Mod>) -> (r: Vec<DeployStep>)
    ensures
        step_views(r@) == deploy_steps(views(ids@), mod_models(mods@)),
{
    let ghost target = deploy_steps(views(ids@), mod_models(mods@));
    let mut out: Vec<DeployStep> = Vec::new();
    let mut i: usize = 0;
    while i < ids.len()
        invariant
            i <= ids@.len(),
            target == deploy_steps(views(ids@), mod_models(mods@)),
            out@.len() == i,
            forall|j: int| 0 <= j < i ==> #[trigger] out@[j]@ == target[j],
        decreases ids@.len() - i,
    {
        let id = &ids[i];
        let step = match last_with_id_exec(mods, id.as_str()) {
            Some(j) => {
                let m = &mods[j];
                let prefix = deploy_prefix(i, ids.len());
                let tail = if str_eq(m.kind.as_str(), "pak") {
                    match file_name_of(m.source_path.as_str()) {
                        Some(f) => f,
                        None => "".to_owned(),
                    }
                } else {
                    id.clone()
                };
                proof {
                    reveal_strlit("");
                }
                let dest_name = concat(prefix.as_str(), tail.as_str());
                DeployStep::Place { id: id.clone(), source: m.source_path.clone(), dest_name }
            },
            None => DeployStep::Missing { message: concat(id.as_str(), ": not found in store") },
        };
        assert(step@ == target[i as int]);
        out.push(step);
        i = i + 1;
    }
    assert(step_views(out@) =~= target);
    out
}

// ---------------------------------------------------------------------------
// Outcome
// ---------------------------------------------------------------------------

/// What a deploy did.
#[derive(Debug, PartialEq)]
pub struct DeployResult {
    pub deployed: u32,
    pub errors: Vec<String>,
}

impl DeployResult {
    /// Nothing deployed yet.
    pub fn new() -> (r: DeployResult)
        ensures
            r.deployed == 0,
            r.errors@.len() == 0,
    {
        DeployResult { deployed: 0, errors: Vec::new() }
    }

    /// Records a cleanup failure: `cleanup <name>: <error>`.
    pub fn cleanup_failed(&mut self, name: &str, err: &str)
        ensures
            final(self).deployed == old(self).deployed,
            views(final(self).errors@) == views(old(self).errors@).push(
                "cleanup "@ + name@ + ": "@ + err@,
            ),
    {
        let a = concat("cleanup ", name);
        let b = concat(a.as_str(), ": ");
        let c = concat(b.as_str(), err);
        let ghost before = self.errors@;
        self.errors.push(c);
        assert(views(self.errors@) =~= views(before).push(c@));
    }

    /// Records the outcome of one step: a placed entry counts, a missing id
    /// or a failure is listed as an error (`<id>: <error>` for a failure).
    pub fn record(&mut self, step: &DeployStep, outcome: Result<(), String>)
        requires
            old(self).deployed < u32::MAX,
        ensures
            match (step, outcome) {
                (DeployStep::Missing { message }, _) => final(self).deployed == old(self).deployed
                    && views(final(self).errors@) == views(old(self).errors@).push(message@),
                (DeployStep::Place { .. }, Ok(_)) => final(self).deployed == old(self).deployed + 1
                    && final(self).errors@ == old(self).errors@,
                (DeployStep::Place { id, .. }, Err(e)) => final(self).deployed == old(self).deployed
                    && views(final(self).errors@) == views(old(self).errors@).push(id@ + ": "@ + e@),
            },
    {
        let ghost before = self.errors@;
        match step {
            DeployStep::Missing { message } => {
                self.errors.push(message.clone());
                assert(views(self.errors@) =~= views(before).push(message@));
            },
            DeployStep::Place { id, .. } => match outcome {
                Ok(_) => {
                    self.deployed = self.deployed + 1;
                },
                Err(e) => {
                    let a = concat(id.as_str(), ": ");
                    let b = concat(a.as_str(), e.as_str());
                    self.errors.push(b);
                    assert(views(self.errors@) =~= views(before).push(b@));
                },
            },
        }
    }
}

} // verus!
